//! Requests that ask Codex for an image.
use vstd::prelude::*;

verus! {

/// Instructions for requests that bring none of their own.
pub const DEFAULT_IMAGE_INSTRUCTIONS: &'static str = "Generate or edit the requested image.";

/// Quality for requests that ask for none.
pub const DEFAULT_IMAGE_QUALITY: &'static str = "high";

/// Standard conversion of a string slice to a string: it has the same
/// characters.
pub assume_specification<'a>[ <String as From<&'a str>>::from ](text: &str) -> (string: String)
    ensures
        string@ == text@,
;

/// Standard conversion of a value to its own type: it is the same value.
pub assume_specification<Any>[ <Any as From<Any>>::from ](value: Any) -> (same: Any)
    ensures
        same == value,
;

/// A piece of a message.
#[derive(Debug, Clone)]
pub enum CodexInputContent {
    InputText { text: String },
    InputImage { image_url: String, detail: Option<String> },
}

/// A message.
#[derive(Debug, Clone)]
pub struct CodexInputItem {
    pub item_type: &'static str,
    pub role: &'static str,
    pub content: Vec<CodexInputContent>,
}

impl CodexInputContent {
    /// A text.
    pub fn input_text<S: Into<String>>(text: S) -> (content: Self)
        ensures
            content matches CodexInputContent::InputText { text: t } && call_ensures(
                S::into,
                (text,),
                t,
            ),
    {
        CodexInputContent::InputText { text: text.into() }
    }

    /// The name of the kind of piece.
    pub fn content_type(&self) -> (name: &'static str)
        ensures
            name@ == (if self is InputText {
                "input_text"@
            } else {
                "input_image"@
            }),
    {
        match self {
            CodexInputContent::InputText { .. } => "input_text",
            CodexInputContent::InputImage { .. } => "input_image",
        }
    }

    /// An image that is found at a URL.
    pub fn input_image_url<S: Into<String>>(url: S, detail: Option<String>) -> (content: Self)
        ensures
            content matches CodexInputContent::InputImage { image_url, detail: d } && call_ensures(
                S::into,
                (url,),
                image_url,
            ) && d == detail,
    {
        CodexInputContent::InputImage { image_url: url.into(), detail }
    }
}

/// Whether an item is a message of the user with the given content.
pub open spec fn user_message(item: CodexInputItem, content: Seq<CodexInputContent>) -> bool {
    &&& item.item_type@ == "message"@
    &&& item.role@ == "user"@
    &&& item.content@ == content
}

impl CodexInputItem {
    /// A message of the user with one text.
    pub fn user_text<S: Into<String>>(text: S) -> (item: Self)
        ensures
            item.content@.len() == 1,
            user_message(item, item.content@),
            item.content@[0] matches CodexInputContent::InputText { text: t } && call_ensures(
                S::into,
                (text,),
                t,
            ),
    {
        let mut content: Vec<CodexInputContent> = Vec::new();
        content.push(CodexInputContent::input_text(text));
        CodexInputItem { item_type: "message", role: "user", content }
    }
}

/// What kind of image is wanted.
#[derive(Debug, Clone)]
pub struct CodexImageGenerationConfig {
    pub quality: String,
    pub size: Option<String>,
    pub action: Option<String>,
}

impl Default for CodexImageGenerationConfig {
    fn default() -> (config: Self)
        ensures
            config.quality@ == DEFAULT_IMAGE_QUALITY@,
            config.size is None,
            config.action is None,
    {
        CodexImageGenerationConfig {
            quality: DEFAULT_IMAGE_QUALITY.to_string(),
            size: None,
            action: None,
        }
    }
}

/// The tool that makes images.
#[derive(Debug, Clone)]
pub struct CodexImageGenerationTool {
    pub tool_type: &'static str,
    pub image_generation: CodexImageGenerationConfig,
}

impl CodexImageGenerationTool {
    pub fn new(image_generation: CodexImageGenerationConfig) -> (tool: Self)
        ensures
            tool.tool_type@ == "image_generation"@,
            tool.image_generation == image_generation,
    {
        CodexImageGenerationTool { tool_type: "image_generation", image_generation }
    }
}

impl Default for CodexImageGenerationTool {
    fn default() -> (tool: Self)
        ensures
            tool.tool_type@ == "image_generation"@,
            tool.image_generation.quality@ == DEFAULT_IMAGE_QUALITY@,
            tool.image_generation.size is None,
            tool.image_generation.action is None,
    {
        CodexImageGenerationTool::new(CodexImageGenerationConfig::default())
    }
}

/// An image that a request starts from.
#[derive(Debug, Clone)]
pub struct CodexInputImage {
    pub url: String,
    pub detail: String,
}

impl CodexInputImage {
    /// The image at a URL, to be looked at in high detail.
    pub fn new<S: Into<String>>(url: S) -> (image: Self)
        ensures
            call_ensures(S::into, (url,), image.url),
            image.detail@ == "high"@,
    {
        CodexInputImage { url: url.into(), detail: "high".to_string() }
    }

    /// The same image in another detail.
    pub fn with_detail<S: Into<String>>(self, detail: S) -> (image: Self)
        ensures
            image.url == self.url,
            call_ensures(S::into, (detail,), image.detail),
    {
        let mut image = self;
        image.detail = detail.into();
        image
    }
}

/// A request for an image.
#[derive(Debug, Clone)]
pub struct CodexImageGenerationRequest {
    pub model: String,
    pub instructions: String,
    pub tools: [CodexImageGenerationTool; 1],
    pub input: Vec<CodexInputItem>,
    pub stream: bool,
    pub store: bool,
}

impl CodexImageGenerationRequest {
    /// A request for an image that a prompt describes.
    pub fn new<M: Into<String>, P: Into<String>>(model: M, prompt: P) -> (request: Self)
        ensures
            call_ensures(M::into, (model,), request.model),
            request.instructions@ == DEFAULT_IMAGE_INSTRUCTIONS@,
            request.tools@[0].tool_type@ == "image_generation"@,
            request.tools@[0].image_generation.quality@ == DEFAULT_IMAGE_QUALITY@,
            request.tools@[0].image_generation.size is None,
            request.tools@[0].image_generation.action is None,
            request.input@.len() == 1,
            request.input@[0].content@.len() == 1,
            user_message(request.input@[0], request.input@[0].content@),
            request.input@[0].content@[0] matches CodexInputContent::InputText { text }
                && call_ensures(P::into, (prompt,), text),
            request.stream,
            !request.store,
    {
        let mut input: Vec<CodexInputItem> = Vec::new();
        input.push(CodexInputItem::user_text(prompt));
        CodexImageGenerationRequest {
            model: model.into(),
            instructions: DEFAULT_IMAGE_INSTRUCTIONS.to_string(),
            tools: [CodexImageGenerationTool::default()],
            input,
            stream: true,
            store: false,
        }
    }

    /// The request with other instructions.
    pub fn with_instructions<S: Into<String>>(self, instructions: S) -> (request: Self)
        ensures
            call_ensures(S::into, (instructions,), request.instructions),
            request == (CodexImageGenerationRequest { instructions: request.instructions, ..self }),
    {
        let mut request = self;
        request.instructions = instructions.into();
        request
    }

    /// The request with another quality.
    pub fn with_quality<S: Into<String>>(self, quality: S) -> (request: Self)
        ensures
            call_ensures(S::into, (quality,), request.tools@[0].image_generation.quality),
            request == (CodexImageGenerationRequest { tools: request.tools, ..self }),
            request.tools@[0].tool_type == self.tools@[0].tool_type,
            request.tools@[0].image_generation == (CodexImageGenerationConfig {
                quality: request.tools@[0].image_generation.quality,
                ..self.tools@[0].image_generation
            }),
    {
        let mut request = self;
        request.tools[0].image_generation.quality = quality.into();
        request
    }

    /// The request with a wanted size.
    pub fn with_size<S: Into<String>>(self, size: S) -> (request: Self)
        ensures
            request.tools@[0].image_generation.size matches Some(s) && call_ensures(
                S::into,
                (size,),
                s,
            ),
            request == (CodexImageGenerationRequest { tools: request.tools, ..self }),
            request.tools@[0].tool_type == self.tools@[0].tool_type,
            request.tools@[0].image_generation == (CodexImageGenerationConfig {
                size: request.tools@[0].image_generation.size,
                ..self.tools@[0].image_generation
            }),
    {
        let mut request = self;
        request.tools[0].image_generation.size = Some(size.into());
        request
    }

    /// The request with a wanted action, such as to generate or to edit.
    pub fn with_action<S: Into<String>>(self, action: S) -> (request: Self)
        ensures
            request.tools@[0].image_generation.action matches Some(a) && call_ensures(
                S::into,
                (action,),
                a,
            ),
            request == (CodexImageGenerationRequest { tools: request.tools, ..self }),
            request.tools@[0].tool_type == self.tools@[0].tool_type,
            request.tools@[0].image_generation == (CodexImageGenerationConfig {
                action: request.tools@[0].image_generation.action,
                ..self.tools@[0].image_generation
            }),
    {
        let mut request = self;
        request.tools[0].image_generation.action = Some(action.into());
        request
    }

    /// The request with one more image to start from, at the end of its first
    /// message. A request without a message gets one.
    pub fn with_input_image(self, image: CodexInputImage) -> (request: Self)
        ensures
            request == (CodexImageGenerationRequest { input: request.input, ..self }),
            ({
                let content = CodexInputContent::InputImage {
                    image_url: image.url,
                    detail: Some(image.detail),
                };
                if self.input@.len() == 0 {
                    request.input@.len() == 1 && user_message(request.input@[0], seq![content])
                } else {
                    let first = self.input@[0];
                    let item = request.input@[0];
                    &&& request.input@ == self.input@.update(0, item)
                    &&& item.item_type == first.item_type
                    &&& item.role == first.role
                    &&& item.content@ == first.content@.push(content)
                }
            }),
    {
        let content = CodexInputContent::input_image_url(image.url, Some(image.detail));
        let mut request = self;
        if request.input.len() > 0 {
            request.input[0].content.push(content);
        } else {
            let mut contents: Vec<CodexInputContent> = Vec::new();
            contents.push(content);
            request.input.push(
                CodexInputItem { item_type: "message", role: "user", content: contents },
            );
        }
        request
    }
}

} // verus!
