use koharu::codex::{
    CodexImageGenerationConfig, CodexImageGenerationRequest, CodexImageGenerationTool,
    CodexInputContent, CodexInputImage, CodexInputItem, DEFAULT_IMAGE_INSTRUCTIONS,
};

fn text(content: &CodexInputContent) -> &str {
    match content {
        CodexInputContent::InputText { text } => text,
        CodexInputContent::InputImage { .. } => panic!("expected a text"),
    }
}

#[test]
fn serializes_image_generation_request_without_input_image() {
    let request = CodexImageGenerationRequest::new("gpt-image-2", "draw a koharu logo")
        .with_action("generate");

    assert_eq!(request.model, "gpt-image-2");
    assert_eq!(request.instructions, DEFAULT_IMAGE_INSTRUCTIONS);
    assert_eq!(request.input.len(), 1);
    assert_eq!(request.input[0].item_type, "message");
    assert_eq!(request.input[0].role, "user");
    assert_eq!(request.input[0].content.len(), 1);
    assert_eq!(request.input[0].content[0].content_type(), "input_text");
    assert_eq!(text(&request.input[0].content[0]), "draw a koharu logo");
    assert_eq!(request.tools[0].tool_type, "image_generation");
    assert_eq!(request.tools[0].image_generation.quality, "high");
    assert_eq!(
        request.tools[0].image_generation.action,
        Some("generate".to_string())
    );
    assert_eq!(request.tools[0].image_generation.size, None);
    assert_eq!(request.stream, true);
    assert_eq!(request.store, false);
}

#[test]
fn serializes_image_generation_request_with_input_image() {
    let request = CodexImageGenerationRequest::new("gpt-image-2", "make it manga")
        .with_action("edit")
        .with_input_image(CodexInputImage::new("data:image/png;base64,abc").with_detail("high"));

    assert_eq!(request.input[0].content.len(), 2);
    assert_eq!(request.input[0].content[1].content_type(), "input_image");
    match &request.input[0].content[1] {
        CodexInputContent::InputImage { image_url, detail } => {
            assert_eq!(image_url, "data:image/png;base64,abc");
            assert_eq!(detail.as_deref(), Some("high"));
        }
        CodexInputContent::InputText { .. } => panic!("expected an image"),
    }
    assert_eq!(
        request.tools[0].image_generation.action.as_deref(),
        Some("edit")
    );
}

#[test]
fn setters_change_their_own_part_only() {
    let request = CodexImageGenerationRequest::new(String::from("m"), "p")
        .with_quality("low")
        .with_size("1024x1024")
        .with_instructions("Be brief.");
    assert_eq!(request.model, "m");
    assert_eq!(request.instructions, "Be brief.");
    assert_eq!(request.tools[0].tool_type, "image_generation");
    assert_eq!(request.tools[0].image_generation.quality, "low");
    assert_eq!(
        request.tools[0].image_generation.size.as_deref(),
        Some("1024x1024")
    );
    assert_eq!(request.tools[0].image_generation.action, None);
    assert_eq!(text(&request.input[0].content[0]), "p");
}

#[test]
fn a_request_without_a_message_gets_one_for_the_image() {
    let mut request = CodexImageGenerationRequest::new("m", "p");
    request.input.clear();
    let request = request.with_input_image(CodexInputImage::new("u"));
    assert_eq!(request.input.len(), 1);
    assert_eq!(request.input[0].item_type, "message");
    assert_eq!(request.input[0].role, "user");
    assert_eq!(request.input[0].content.len(), 1);
}

#[test]
fn images_go_to_the_first_message() {
    let mut request = CodexImageGenerationRequest::new("m", "p");
    request.input.push(CodexInputItem::user_text("second"));
    let request = request
        .with_input_image(CodexInputImage::new("a"))
        .with_input_image(CodexInputImage::new("b").with_detail("low"));
    assert_eq!(request.input[0].content.len(), 3);
    assert_eq!(request.input[1].content.len(), 1);
    match &request.input[0].content[2] {
        CodexInputContent::InputImage { image_url, detail } => {
            assert_eq!(image_url, "b");
            assert_eq!(detail.as_deref(), Some("low"));
        }
        CodexInputContent::InputText { .. } => panic!("expected an image"),
    }
}

#[test]
fn defaults_ask_for_high_quality() {
    let config = CodexImageGenerationConfig::default();
    assert_eq!(config.quality, "high");
    assert_eq!(config.size, None);
    assert_eq!(config.action, None);
    let tool = CodexImageGenerationTool::new(config);
    assert_eq!(tool.tool_type, "image_generation");
    let tool = CodexImageGenerationTool::default();
    assert_eq!(tool.image_generation.quality, "high");
    assert_eq!(CodexInputImage::new("u").detail, "high");
}
