//! Saved API keys of model providers.
//!
//! Keys lie in the credential store of the platform. Where that is a directory
//! of files, each credential has a file whose name is made of its target,
//! service and user. This module says under which names keys are kept and what
//! the answers of a store mean; talking to a store is left to the caller.
use vstd::prelude::*;
use vstd::utf8::*;

verus! {

/// The service under which all keys are kept.
pub const API_KEY_SERVICE: &'static str = "koharu";

/// The characters with the Unicode property `White_Space`.
pub open spec fn white_space(c: char) -> bool {
    let n = c as int;
    ||| 0x9 <= n <= 0xd
    ||| n == 0x20
    ||| n == 0x85
    ||| n == 0xa0
    ||| n == 0x1680
    ||| 0x2000 <= n <= 0x200a
    ||| n == 0x2028
    ||| n == 0x2029
    ||| n == 0x202f
    ||| n == 0x205f
    ||| n == 0x3000
}

/// `char::is_whitespace` tells whether a character has the Unicode property
/// `White_Space`.
pub assume_specification[ char::is_whitespace ](c: char) -> (r: bool)
    ensures
        r == white_space(c),
;

/// `String::push` appends one character.
pub assume_specification[ String::push ](s: &mut String, c: char)
    ensures
        final(s)@ == old(s)@.push(c),
;

/// Whether a key is empty but for white space.
pub open spec fn blank(key: Seq<char>) -> bool {
    forall|i: int| 0 <= i < key.len() ==> white_space(#[trigger] key[i])
}

/// Whether a key is empty but for white space.
pub fn is_blank(key: &str) -> (r: bool)
    ensures
        r == blank(key@),
{
    let mut all: bool = true;
    for c in iter: key.chars()
        invariant
            iter.seq() == key@,
            all <==> forall|i: int| 0 <= i < iter.index() ==> white_space(#[trigger] key@[i]),
    {
        if !c.is_whitespace() {
            all = false;
        }
    }
    all
}

/// The user name under which the key of a provider is kept.
pub fn entry_user(provider: &str) -> (user: String)
    ensures
        user@ == "llm_provider_api_key_"@ + provider@,
{
    let mut user = "llm_provider_api_key_".to_string();
    user.append(provider);
    user
}

/// Bytes that stand for themselves in a file name: letters, digits, `-`, `_`
/// and `.`.
pub open spec fn plain(byte: u8) -> bool {
    ||| 'A' as int <= byte <= 'Z' as int
    ||| 'a' as int <= byte <= 'z' as int
    ||| '0' as int <= byte <= '9' as int
    ||| byte == '-' as int
    ||| byte == '_' as int
    ||| byte == '.' as int
}

/// An upper case hexadecimal digit.
pub open spec fn hex_digit(d: int) -> char {
    if d < 10 {
        (48 + d) as char
    } else {
        (55 + d) as char
    }
}

/// A byte in a file name.
pub open spec fn escaped_byte(byte: u8) -> Seq<char> {
    if plain(byte) {
        seq![byte as char]
    } else {
        seq!['%', hex_digit(byte as int / 16), hex_digit(byte as int % 16)]
    }
}

/// Bytes in a file name.
pub open spec fn escaped(bytes: Seq<u8>) -> Seq<char>
    decreases bytes.len(),
{
    if bytes.len() == 0 {
        Seq::empty()
    } else {
        escaped(bytes.drop_last()) + escaped_byte(bytes.last())
    }
}

fn is_plain(byte: u8) -> (r: bool)
    ensures
        r == plain(byte),
{
    (65 <= byte && byte <= 90) || (97 <= byte && byte <= 122) || (48 <= byte && byte <= 57) || byte
        == 45 || byte == 95 || byte == 46
}

fn hex(d: u8) -> (c: char)
    requires
        d < 16,
    ensures
        c == hex_digit(d as int),
{
    if d < 10 {
        (48 + d) as char
    } else {
        (55 + d) as char
    }
}

/// Escapes a text for use in a file name.
pub fn encode(value: &str) -> (encoded: String)
    ensures
        encoded@ == escaped(encode_utf8(value@)),
{
    let bytes: &[u8] = value.as_bytes();
    let mut encoded = String::new();
    let mut i: usize = 0;
    assert(bytes@.take(0) =~= Seq::empty());
    while i < bytes.len()
        invariant
            i <= bytes@.len(),
            encoded@ == escaped(bytes@.take(i as int)),
        decreases bytes@.len() - i,
    {
        let byte: u8 = bytes[i];
        assert(bytes@.take(i + 1).drop_last() =~= bytes@.take(i as int));
        let ghost before = encoded@;
        if is_plain(byte) {
            encoded.push(byte as char);
        } else {
            encoded.push('%');
            encoded.push(hex(byte / 16));
            encoded.push(hex(byte % 16));
        }
        assert(encoded@ =~= before + escaped_byte(byte));
        i += 1;
    }
    assert(bytes@.take(bytes@.len() as int) =~= bytes@);
    encoded
}

/// The part of a file name that stands for the target.
pub open spec fn target_part(target: Option<Seq<char>>) -> Seq<char> {
    match target {
        Some(t) => "some-"@ + escaped(encode_utf8(t)),
        None => "none"@,
    }
}

/// The name of the file that keeps a credential.
pub open spec fn stored_name(
    target: Option<Seq<char>>,
    service: Seq<char>,
    user: Seq<char>,
) -> Seq<char> {
    "v1-target-"@ + target_part(target) + "--service-"@ + escaped(encode_utf8(service)) + "--user-"@
        + escaped(encode_utf8(user)) + ".secret"@
}

/// The content of an optional text.
pub open spec fn text_seen(text: Option<&str>) -> Option<Seq<char>> {
    match text {
        Some(t) => Some(t@),
        None => None,
    }
}

/// The name of the file that keeps a credential.
pub fn file_name(target: Option<&str>, service: &str, user: &str) -> (name: String)
    ensures
        name@ == stored_name(text_seen(target), service@, user@),
{
    let mut name = "v1-target-".to_string();
    match target {
        Some(value) => {
            name.append("some-");
            name.append(encode(value).as_str());
            assert(name@ =~= "v1-target-"@ + target_part(text_seen(target)));
        },
        None => {
            name.append("none");
        },
    }
    name.append("--service-");
    name.append(encode(service).as_str());
    name.append("--user-");
    name.append(encode(user).as_str());
    name.append(".secret");
    name
}

/// A number in decimal digits.
pub open spec fn decimal(n: nat) -> Seq<char>
    decreases n,
{
    if n < 10 {
        seq![(48 + n) as char]
    } else {
        decimal(n / 10).push((48 + n % 10) as char)
    }
}

fn append_decimal(text: &mut String, n: u64)
    ensures
        final(text)@ == old(text)@ + decimal(n as nat),
    decreases n,
{
    let ghost before = text@;
    if n >= 10 {
        append_decimal(text, n / 10);
    }
    text.push((48 + (n % 10) as u8) as char);
    assert(text@ =~= before + decimal(n as nat));
}

/// The name of the file that a credential is first written to. `process` and
/// `id` keep apart the writes of different processes and the writes of one.
pub open spec fn temporary_name(name: Seq<char>, process: nat, id: nat) -> Seq<char> {
    name + ".tmp-"@ + decimal(process) + "-"@ + decimal(id)
}

/// The name of the file that a credential is first written to.
pub fn temp_file_name(name: &str, process: u32, id: u64) -> (temp: String)
    ensures
        temp@ == temporary_name(name@, process as nat, id as nat),
{
    let mut temp = name.to_string();
    temp.append(".tmp-");
    append_decimal(&mut temp, process as u64);
    temp.append("-");
    append_decimal(&mut temp, id);
    temp
}

/// Why a credential store did not do what it was asked.
#[derive(Debug)]
pub enum StoreError {
    /// There is no such credential.
    NoEntry,
    /// The store failed.
    Failed(String),
}

/// What is to be done with a key that is saved.
#[derive(Debug, Clone, Copy, PartialEq, Eq, Structural)]
pub enum SaveAction {
    /// Delete the credential.
    Delete,
    /// Write the key.
    Write,
}

/// Saving a blank key deletes the credential.
pub fn save_action(api_key: &str) -> (action: SaveAction)
    ensures
        action == (if blank(api_key@) {
            SaveAction::Delete
        } else {
            SaveAction::Write
        }),
{
    if is_blank(api_key) {
        SaveAction::Delete
    } else {
        SaveAction::Write
    }
}

/// The saved key, from what the store answered when it was read. No entry
/// means that no key is saved.
pub fn key_read(reply: Result<String, StoreError>) -> (key: Result<Option<String>, StoreError>)
    ensures
        key == match reply {
            Ok(value) => Ok::<Option<String>, StoreError>(Some(value)),
            Err(StoreError::NoEntry) => Ok(None),
            Err(error) => Err(error),
        },
{
    match reply {
        Ok(value) => Ok(Some(value)),
        Err(StoreError::NoEntry) => Ok(None),
        Err(error) => Err(error),
    }
}

/// Whether saving succeeded, from what was to be done and what the store
/// answered. Deleting what is not there succeeds.
pub fn key_saved(action: SaveAction, reply: Result<(), StoreError>) -> (saved: Result<
    (),
    StoreError,
>)
    ensures
        saved == (if action is Delete && reply == Err::<(), StoreError>(StoreError::NoEntry) {
            Ok::<(), StoreError>(())
        } else {
            reply
        }),
{
    match action {
        SaveAction::Delete => match reply {
            Err(StoreError::NoEntry) => Ok(()),
            other => other,
        },
        SaveAction::Write => reply,
    }
}

/// The steps of writing a secret to its file.
#[derive(Debug, Clone, Copy, PartialEq, Eq, Structural)]
pub enum WriteStep {
    CreateDirectory,
    ProtectDirectory,
    WriteTemporary,
    ProtectTemporary,
    RenameTemporary,
    RemoveTemporary,
    ProtectFile,
}

/// Where writing a secret stands after a step.
#[derive(Debug, Clone, Copy, PartialEq, Eq, Structural)]
pub enum WriteState {
    /// This step is next.
    Pending(WriteStep),
    /// The secret is written.
    Written,
    /// Writing failed with the first error that a step gave.
    Failed,
}

/// Where writing a secret stands after a step that did or did not succeed. The
/// secret first goes to a temporary file, which takes the place of the old
/// file once it is protected. A temporary file that cannot take its place is
/// removed.
pub open spec fn state_after(step: WriteStep, done: bool) -> WriteState {
    match (step, done) {
        (WriteStep::CreateDirectory, true) => WriteState::Pending(WriteStep::ProtectDirectory),
        (WriteStep::ProtectDirectory, true) => WriteState::Pending(WriteStep::WriteTemporary),
        (WriteStep::WriteTemporary, true) => WriteState::Pending(WriteStep::ProtectTemporary),
        (WriteStep::ProtectTemporary, true) => WriteState::Pending(WriteStep::RenameTemporary),
        (WriteStep::RenameTemporary, true) => WriteState::Pending(WriteStep::ProtectFile),
        (WriteStep::RenameTemporary, false) => WriteState::Pending(WriteStep::RemoveTemporary),
        (WriteStep::ProtectFile, true) => WriteState::Written,
        _ => WriteState::Failed,
    }
}

/// Where writing a secret stands after a step.
pub fn after_step(step: WriteStep, done: bool) -> (state: WriteState)
    ensures
        state == state_after(step, done),
{
    match step {
        WriteStep::CreateDirectory if done => WriteState::Pending(WriteStep::ProtectDirectory),
        WriteStep::ProtectDirectory if done => WriteState::Pending(WriteStep::WriteTemporary),
        WriteStep::WriteTemporary if done => WriteState::Pending(WriteStep::ProtectTemporary),
        WriteStep::ProtectTemporary if done => WriteState::Pending(WriteStep::RenameTemporary),
        WriteStep::RenameTemporary => if done {
            WriteState::Pending(WriteStep::ProtectFile)
        } else {
            WriteState::Pending(WriteStep::RemoveTemporary)
        },
        WriteStep::ProtectFile if done => WriteState::Written,
        _ => WriteState::Failed,
    }
}

/// The permissions that a step sets: the directory is for its owner alone,
/// and the files can be read and written by their owner alone.
pub fn step_mode(step: WriteStep) -> (mode: Option<u32>)
    ensures
        mode == match step {
            WriteStep::ProtectDirectory => Some(0o700u32),
            WriteStep::ProtectTemporary => Some(0o600u32),
            WriteStep::ProtectFile => Some(0o600u32),
            _ => None,
        },
{
    match step {
        WriteStep::ProtectDirectory => Some(0o700),
        WriteStep::ProtectTemporary | WriteStep::ProtectFile => Some(0o600),
        _ => None,
    }
}

/// Where writing stands after steps with the given outcomes.
pub open spec fn state_of(outcomes: Seq<bool>) -> WriteState
    decreases outcomes.len(),
{
    if outcomes.len() == 0 {
        WriteState::Pending(WriteStep::CreateDirectory)
    } else {
        match state_of(outcomes.drop_last()) {
            WriteState::Pending(step) => state_after(step, outcomes.last()),
            end => end,
        }
    }
}

/// A file takes the place of a secret only once it is written and protected,
/// in a protected directory.
pub proof fn law_rename_comes_after_protection(outcomes: Seq<bool>)
    requires
        state_of(outcomes) == WriteState::Pending(WriteStep::RenameTemporary),
    ensures
        outcomes.len() == 4,
        forall|i: int| 0 <= i < 4 ==> #[trigger] outcomes[i],
{
    reveal_with_fuel(state_of, 6);
}

/// The secret is written exactly where all six steps succeed, and no more than
/// six steps are taken.
pub proof fn law_written_after_six_successes(outcomes: Seq<bool>)
    ensures
        state_of(outcomes) is Written <==> outcomes.len() >= 6 && forall|i: int|
            0 <= i < 6 ==> #[trigger] outcomes[i],
        outcomes.len() >= 6 ==> !(state_of(outcomes) is Pending),
    decreases outcomes.len(),
{
    if outcomes.len() > 6 {
        let earlier = outcomes.drop_last();
        law_written_after_six_successes(earlier);
        assert forall|i: int| 0 <= i < 6 implies #[trigger] outcomes[i] == earlier[i] by {}
    } else {
        reveal_with_fuel(state_of, 7);
    }
}

/// Characters that may occur in a file name: plain ones, and the sign that
/// starts an escaped byte.
pub open spec fn safe(c: char) -> bool {
    c == '%' || (c as int) < 128 && plain(c as u8)
}

/// Escaping leaves no character that is not safe, and so no path separator.
pub proof fn law_escaped_is_safe(bytes: Seq<u8>, i: int)
    requires
        0 <= i < escaped(bytes).len(),
    ensures
        safe(escaped(bytes)[i]),
        escaped(bytes)[i] != '/',
        escaped(bytes)[i] != '\\',
    decreases bytes.len(),
{
    let earlier = escaped(bytes.drop_last());
    if i < earlier.len() {
        law_escaped_is_safe(bytes.drop_last(), i);
    } else {
        let byte = bytes.last();
        assert(escaped(bytes)[i] == escaped_byte(byte)[i - earlier.len()]);
    }
}

/// The name of a credential file has no path separator, whatever the target,
/// the service and the user are called.
pub proof fn law_file_name_has_no_separator(
    target: Option<Seq<char>>,
    service: Seq<char>,
    user: Seq<char>,
    i: int,
)
    requires
        0 <= i < stored_name(target, service, user).len(),
    ensures
        stored_name(target, service, user)[i] != '/',
        stored_name(target, service, user)[i] != '\\',
{
    reveal_strlit("v1-target-");
    reveal_strlit("some-");
    reveal_strlit("none");
    reveal_strlit("--service-");
    reveal_strlit("--user-");
    reveal_strlit(".secret");
    let t = target_part(target);
    let s = escaped(encode_utf8(service));
    let u = escaped(encode_utf8(user));
    assert forall|j: int| 0 <= j < t.len() implies t[j] != '/' && t[j] != '\\' by {
        if let Some(name) = target {
            if j >= 5 {
                law_escaped_is_safe(encode_utf8(name), j - 5);
                assert(t[j] == escaped(encode_utf8(name))[j - 5]);
            }
        }
    }
    assert forall|j: int| 0 <= j < s.len() implies s[j] != '/' && s[j] != '\\' by {
        law_escaped_is_safe(encode_utf8(service), j);
    }
    assert forall|j: int| 0 <= j < u.len() implies u[j] != '/' && u[j] != '\\' by {
        law_escaped_is_safe(encode_utf8(user), j);
    }
}

proof fn lemma_escaped_front(bytes: Seq<u8>)
    requires
        bytes.len() > 0,
    ensures
        escaped(bytes) == escaped_byte(bytes[0]) + escaped(bytes.drop_first()),
    decreases bytes.len(),
{
    if bytes.len() == 1 {
        assert(bytes.drop_last() =~= Seq::empty());
        assert(bytes.drop_first() =~= Seq::empty());
        assert(escaped(bytes) =~= escaped_byte(bytes[0]) + escaped(bytes.drop_first()));
    } else {
        lemma_escaped_front(bytes.drop_last());
        assert(bytes.drop_last().drop_first() =~= bytes.drop_first().drop_last());
        assert(escaped(bytes) =~= escaped_byte(bytes[0]) + escaped(bytes.drop_first()));
    }
}

/// Different bytes are escaped differently.
pub proof fn law_escaping_is_injective(a: Seq<u8>, b: Seq<u8>)
    requires
        escaped(a) == escaped(b),
    ensures
        a == b,
    decreases a.len(),
{
    if a.len() > 0 {
        lemma_escaped_front(a);
    }
    if b.len() > 0 {
        lemma_escaped_front(b);
    }
    if a.len() > 0 && b.len() > 0 {
        let (x, y) = (escaped_byte(a[0]), escaped_byte(b[0]));
        assert(escaped(a)[0] == x[0] && escaped(b)[0] == y[0]);
        if !plain(a[0]) && !plain(b[0]) {
            assert(escaped(a)[1] == x[1] && escaped(b)[1] == y[1]);
            assert(escaped(a)[2] == x[2] && escaped(b)[2] == y[2]);
        }
        assert(a[0] == b[0]);
        let n = x.len() as int;
        assert(escaped(a).skip(n) =~= escaped(a.drop_first()));
        assert(escaped(b).skip(n) =~= escaped(b.drop_first()));
        law_escaping_is_injective(a.drop_first(), b.drop_first());
        assert(a =~= seq![a[0]] + a.drop_first());
        assert(b =~= seq![b[0]] + b.drop_first());
    } else if a.len() > 0 {
        assert(escaped(a).len() >= escaped_byte(a[0]).len());
        assert(escaped(b).len() == 0);
    } else if b.len() > 0 {
        assert(escaped(b).len() >= escaped_byte(b[0]).len());
        assert(escaped(a).len() == 0);
    } else {
        assert(a =~= b);
    }
}

/// Different texts are encoded differently.
pub proof fn law_encoding_is_injective(a: Seq<char>, b: Seq<char>)
    requires
        escaped(encode_utf8(a)) == escaped(encode_utf8(b)),
    ensures
        a == b,
{
    law_escaping_is_injective(encode_utf8(a), encode_utf8(b));
    encode_utf8_decode_utf8(a);
    encode_utf8_decode_utf8(b);
}

/// What stands between equal texts is equal where the whole is.
proof fn lemma_between(before: Seq<char>, a: Seq<char>, b: Seq<char>, after: Seq<char>)
    requires
        before + a + after == before + b + after,
    ensures
        a == b,
{
    let (x, y) = (before + a + after, before + b + after);
    assert(x.len() == y.len());
    assert(x.subrange(before.len() as int, (before.len() + a.len()) as int) =~= a);
    assert(y.subrange(before.len() as int, (before.len() + b.len()) as int) =~= b);
}

/// Credentials that differ in their user only have different files.
pub proof fn law_users_have_different_files(
    target: Option<Seq<char>>,
    service: Seq<char>,
    a: Seq<char>,
    b: Seq<char>,
)
    requires
        stored_name(target, service, a) == stored_name(target, service, b),
    ensures
        a == b,
{
    let before = "v1-target-"@ + target_part(target) + "--service-"@ + escaped(
        encode_utf8(service),
    ) + "--user-"@;
    lemma_between(before, escaped(encode_utf8(a)), escaped(encode_utf8(b)), ".secret"@);
    law_encoding_is_injective(a, b);
}

/// Credentials that differ in their service only have different files.
pub proof fn law_services_have_different_files(
    target: Option<Seq<char>>,
    a: Seq<char>,
    b: Seq<char>,
    user: Seq<char>,
)
    requires
        stored_name(target, a, user) == stored_name(target, b, user),
    ensures
        a == b,
{
    let before = "v1-target-"@ + target_part(target) + "--service-"@;
    let after = "--user-"@ + escaped(encode_utf8(user)) + ".secret"@;
    let (x, y) = (escaped(encode_utf8(a)), escaped(encode_utf8(b)));
    assert(stored_name(target, a, user) =~= before + x + after);
    assert(stored_name(target, b, user) =~= before + y + after);
    lemma_between(before, x, y, after);
    law_encoding_is_injective(a, b);
}

/// Credentials that differ in their target only have different files.
pub proof fn law_targets_have_different_files(
    a: Option<Seq<char>>,
    b: Option<Seq<char>>,
    service: Seq<char>,
    user: Seq<char>,
)
    requires
        stored_name(a, service, user) == stored_name(b, service, user),
    ensures
        a == b,
{
    reveal_strlit("some-");
    reveal_strlit("none");
    let before = "v1-target-"@;
    let after = "--service-"@ + escaped(encode_utf8(service)) + "--user-"@ + escaped(
        encode_utf8(user),
    ) + ".secret"@;
    let (x, y) = (target_part(a), target_part(b));
    assert(stored_name(a, service, user) =~= before + x + after);
    assert(stored_name(b, service, user) =~= before + y + after);
    lemma_between(before, x, y, after);
    match (a, b) {
        (Some(s), Some(t)) => {
            assert(x.skip(5) =~= escaped(encode_utf8(s)));
            assert(y.skip(5) =~= escaped(encode_utf8(t)));
            law_encoding_is_injective(s, t);
        },
        (Some(_), None) => {
            assert(x[0] == y[0]);
        },
        (None, Some(_)) => {
            assert(x[0] == y[0]);
        },
        (None, None) => {},
    }
}

/// Different providers have different users.
pub proof fn law_providers_have_different_users(a: Seq<char>, b: Seq<char>)
    requires
        "llm_provider_api_key_"@ + a == "llm_provider_api_key_"@ + b,
    ensures
        a == b,
{
    let prefix = "llm_provider_api_key_"@;
    assert((prefix + a).skip(prefix.len() as int) =~= a);
    assert((prefix + b).skip(prefix.len() as int) =~= b);
}

proof fn lemma_decimal(n: nat)
    ensures
        decimal(n).len() > 0,
        forall|i: int| 0 <= i < decimal(n).len() ==> '0' <= #[trigger] decimal(n)[i] <= '9',
    decreases n,
{
    if n >= 10 {
        lemma_decimal(n / 10);
    }
}

/// Different numbers have different digits.
pub proof fn law_decimal_is_injective(a: nat, b: nat)
    requires
        decimal(a) == decimal(b),
    ensures
        a == b,
    decreases a,
{
    assert(decimal(a).last() as int == 48 + a % 10);
    assert(decimal(b).last() as int == 48 + b % 10);
    if a >= 10 {
        lemma_decimal(a / 10);
    }
    if b >= 10 {
        lemma_decimal(b / 10);
    }
    if a >= 10 && b >= 10 {
        assert(decimal(a).drop_last() =~= decimal(a / 10));
        assert(decimal(b).drop_last() =~= decimal(b / 10));
        law_decimal_is_injective(a / 10, b / 10);
    } else if a >= 10 {
        assert(decimal(a).len() > 1);
    } else if b >= 10 {
        assert(decimal(b).len() > 1);
    }
}

/// Two writes of one credential that come from different processes, or have
/// different numbers in one process, go to different files.
pub proof fn law_writes_have_different_files(name: Seq<char>, p: nat, i: nat, q: nat, j: nat)
    requires
        temporary_name(name, p, i) == temporary_name(name, q, j),
    ensures
        p == q,
        i == j,
{
    reveal_strlit("-");
    let before = name + ".tmp-"@;
    let n = before.len() as int;
    let (a, b) = (decimal(p), decimal(q));
    let (x, y) = (temporary_name(name, p, i), temporary_name(name, q, j));
    lemma_decimal(p);
    lemma_decimal(q);
    assert(x[n + a.len()] == '-');
    assert(y[n + b.len()] == '-');
    if a.len() < b.len() {
        assert(y[n + a.len()] == b[a.len() as int]);
    } else if b.len() < a.len() {
        assert(x[n + b.len()] == a[b.len() as int]);
    }
    assert(a.len() == b.len());
    assert(x.subrange(n, n + a.len()) =~= a);
    assert(y.subrange(n, n + b.len()) =~= b);
    law_decimal_is_injective(p, q);
    let m = n + a.len() + 1;
    assert(x.skip(m) =~= decimal(i));
    assert(y.skip(m) =~= decimal(j));
    law_decimal_is_injective(i, j);
}

/// As long as no step fails, the directory is made and protected, the secret is
/// written to a temporary file, that is protected and renamed, and the file is
/// protected, in this order.
pub proof fn law_steps_come_in_order(outcomes: Seq<bool>)
    requires
        forall|i: int| 0 <= i < outcomes.len() ==> #[trigger] outcomes[i],
    ensures
        outcomes.len() == 0 ==> state_of(outcomes) == WriteState::Pending(
            WriteStep::CreateDirectory,
        ),
        outcomes.len() == 1 ==> state_of(outcomes) == WriteState::Pending(
            WriteStep::ProtectDirectory,
        ),
        outcomes.len() == 2 ==> state_of(outcomes) == WriteState::Pending(
            WriteStep::WriteTemporary,
        ),
        outcomes.len() == 3 ==> state_of(outcomes) == WriteState::Pending(
            WriteStep::ProtectTemporary,
        ),
        outcomes.len() == 4 ==> state_of(outcomes) == WriteState::Pending(
            WriteStep::RenameTemporary,
        ),
        outcomes.len() == 5 ==> state_of(outcomes) == WriteState::Pending(WriteStep::ProtectFile),
        outcomes.len() >= 6 ==> state_of(outcomes) == WriteState::Written,
{
    law_written_after_six_successes(outcomes);
    if outcomes.len() < 6 {
        reveal_with_fuel(state_of, 6);
    }
}

/// A temporary file that cannot take the place of the secret is removed, and
/// writing has failed then, whether or not it could be removed.
pub proof fn law_failed_rename_is_cleaned_up(outcomes: Seq<bool>)
    requires
        outcomes.len() >= 5,
        forall|i: int| 0 <= i < 4 ==> #[trigger] outcomes[i],
        !outcomes[4],
    ensures
        outcomes.len() == 5 ==> state_of(outcomes) == WriteState::Pending(
            WriteStep::RemoveTemporary,
        ),
        outcomes.len() >= 6 ==> state_of(outcomes) == WriteState::Failed,
{
    law_written_after_six_successes(outcomes);
    if outcomes.len() == 5 {
        reveal_with_fuel(state_of, 6);
    }
}

/// Any other step that fails ends the writing.
pub proof fn law_failed_step_ends_writing(outcomes: Seq<bool>, k: int)
    requires
        0 <= k < outcomes.len(),
        k < 6,
        k != 4,
        forall|i: int| 0 <= i < k ==> #[trigger] outcomes[i],
        !outcomes[k],
    ensures
        state_of(outcomes) == WriteState::Failed,
    decreases outcomes.len(),
{
    if outcomes.len() > k + 1 {
        let earlier = outcomes.drop_last();
        assert forall|i: int| 0 <= i < k implies #[trigger] earlier[i] by {
            assert(outcomes[i]);
        }
        law_failed_step_ends_writing(earlier, k);
    } else {
        reveal_with_fuel(state_of, 7);
    }
}

/// Letters, digits, `-`, `_` and `.`.
pub open spec fn ordinary(c: int) -> bool {
    0x30 <= c <= 0x39 || 0x41 <= c <= 0x5a || 0x61 <= c <= 0x7a || c == 0x2d || c == 0x2e || c
        == 0x5f
}

/// Letters, digits, `-`, `_` and `.` stand for themselves.
pub proof fn law_ordinary_text_is_kept(bytes: Seq<u8>)
    requires
        forall|i: int| 0 <= i < bytes.len() ==> ordinary(#[trigger] bytes[i] as int),
    ensures
        escaped(bytes).len() == bytes.len(),
        forall|i: int|
            0 <= i < bytes.len() ==> #[trigger] escaped(bytes)[i] as int == bytes[i] as int,
    decreases bytes.len(),
{
    if bytes.len() > 0 {
        let earlier = bytes.drop_last();
        law_ordinary_text_is_kept(earlier);
        let last = bytes.last();
        assert(ordinary(last as int));
        assert(escaped_byte(last) =~= seq![last as char]);
    }
}

/// The value of an upper case hexadecimal digit.
pub open spec fn hex_value(c: int) -> int {
    if c <= 0x39 {
        c - 0x30
    } else {
        c - 0x37
    }
}

/// Every other byte becomes a percent sign and its two hexadecimal digits.
pub proof fn law_other_bytes_are_escaped(byte: u8)
    requires
        !ordinary(byte as int),
    ensures
        ({
            let text = escaped_byte(byte);
            &&& text.len() == 3
            &&& text[0] == '%'
            &&& ordinary(text[1] as int) && ordinary(text[2] as int)
            &&& 0 <= hex_value(text[1] as int) < 16 && 0 <= hex_value(text[2] as int) < 16
            &&& 16 * hex_value(text[1] as int) + hex_value(text[2] as int) == byte
        }),
{
    vstd::arithmetic::div_mod::lemma_fundamental_div_mod(byte as int, 16);
}

/// Escaping one text after the other is escaping both.
pub proof fn law_escaping_of_joined_text(a: Seq<u8>, b: Seq<u8>)
    ensures
        escaped(a + b) == escaped(a) + escaped(b),
    decreases b.len(),
{
    if b.len() == 0 {
        assert(a + b =~= a);
        assert(escaped(a) + escaped(b) =~= escaped(a));
    } else {
        law_escaping_of_joined_text(a, b.drop_last());
        assert((a + b).drop_last() =~= a + b.drop_last());
        assert((a + b).last() == b.last());
        assert(escaped(a + b) =~= escaped(a) + escaped(b));
    }
}

/// The number that decimal digits stand for.
pub open spec fn digits_value(digits: Seq<char>) -> int
    decreases digits.len(),
{
    if digits.len() == 0 {
        0
    } else {
        10 * digits_value(digits.drop_last()) + (digits.last() as int - '0' as int)
    }
}

/// The digits of a number stand for that number, and do not start with a zero
/// unless it is zero.
pub proof fn law_decimal_reads_back(n: nat)
    ensures
        digits_value(decimal(n)) == n,
        n > 0 ==> decimal(n)[0] != '0',
    decreases n,
{
    if n >= 10 {
        law_decimal_reads_back(n / 10);
        lemma_decimal(n / 10);
        assert(decimal(n).drop_last() =~= decimal(n / 10));
        assert(decimal(n)[0] == decimal(n / 10)[0]);
    } else {
        assert(decimal(n).drop_last() =~= Seq::empty());
        assert(digits_value(decimal(n).drop_last()) == 0);
    }
}

/// A temporary file has the name of the file and something after it.
pub proof fn law_temporary_name_starts_with_name(name: Seq<char>, process: nat, id: nat)
    ensures
        temporary_name(name, process, id).len() > name.len(),
        temporary_name(name, process, id).take(name.len() as int) == name,
{
    reveal_strlit(".tmp-");
    assert(temporary_name(name, process, id).take(name.len() as int) =~= name);
}

/// A key is blank exactly where both parts of it are; a single character is
/// where it is white space, and nothing at all is.
pub proof fn law_blank_in_parts(a: Seq<char>, b: Seq<char>, c: char)
    ensures
        blank(a + b) <==> blank(a) && blank(b),
        blank(seq![c]) <==> white_space(c),
        blank(Seq::empty()),
{
    if blank(a + b) {
        assert forall|i: int| 0 <= i < a.len() implies white_space(#[trigger] a[i]) by {
            assert((a + b)[i] == a[i]);
        }
        assert forall|i: int| 0 <= i < b.len() implies white_space(#[trigger] b[i]) by {
            assert((a + b)[a.len() + i] == b[i]);
        }
    }
    assert(seq![c][0] == c);
}

} // verus!
