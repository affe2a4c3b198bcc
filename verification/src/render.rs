//! Turning a drawing into an image with the `dot` program of Graphviz: what
//! the files are called, where the program is found, and what came of it.
use vstd::prelude::*;
use vstd::utf8::{decode_utf8, valid_utf8};

use crate::text::{decimal, push_decimal};

verus! {

/// Whether `char::is_alphanumeric` holds of `c`: whether the Unicode Standard
/// counts it as alphabetic or as a number.
pub uninterp spec fn is_letter_or_number(c: char) -> bool;

/// Whether `c` is one of `0` to `9`, `A` to `Z` and `a` to `z`.
pub open spec fn is_ascii_letter_or_digit(c: char) -> bool {
    '0' <= c <= '9' || 'A' <= c <= 'Z' || 'a' <= c <= 'z'
}

/// `char::is_alphanumeric` tells whether a character is alphabetic or a
/// number. This depends on the character alone; of the ASCII characters it
/// holds for the letters and the digits.
pub assume_specification[ char::is_alphanumeric ](c: char) -> (res: bool)
    ensures
        res == is_letter_or_number(c),
        c < '\u{80}' ==> res == is_ascii_letter_or_digit(c),
;

/// What stands for the character `c` in the name of a file.
pub open spec fn safe_char(c: char, alphanumeric: bool) -> char {
    if alphanumeric || c == '-' || c == '_' {
        c
    } else {
        '_'
    }
}

/// What stands for the name of a graph in the name of a file.
pub open spec fn safe_name(graph_name: Seq<char>) -> Seq<char> {
    graph_name.map_values(|c: char| safe_char(c, is_letter_or_number(c)))
}

/// Replaces a character that is not alphanumeric, unless it is `-` or `_`.
pub fn replace_unsafe_char(c: char, alphanumeric: bool) -> (res: char)
    ensures
        res == safe_char(c, alphanumeric),
        alphanumeric || c == '-' || c == '_' ==> res == c,
        !alphanumeric && c != '-' && c != '_' ==> res == '_',
{
    if alphanumeric || c == '-' || c == '_' {
        c
    } else {
        '_'
    }
}

/// The name of a graph with all characters replaced that do not belong in the
/// name of a file.
pub fn file_stem(graph_name: &str) -> (out: String)
    ensures
        out@ == safe_name(graph_name@),
        out@.len() == graph_name@.len(),
        forall|i: int|
            0 <= i < graph_name@.len() ==> #[trigger] out@[i] == if is_letter_or_number(
                graph_name@[i],
            ) || graph_name@[i] == '-' || graph_name@[i] == '_' {
                graph_name@[i]
            } else {
                '_'
            },
        forall|i: int|
            0 <= i < graph_name@.len() && graph_name@[i] < '\u{80}' ==> #[trigger] out@[i]
                == safe_char(graph_name@[i], is_ascii_letter_or_digit(graph_name@[i])),
        forall|i: int|
            0 <= i < out@.len() && #[trigger] out@[i] < '\u{80}' ==> is_ascii_letter_or_digit(
                out@[i],
            ) || out@[i] == '-' || out@[i] == '_',
{
    let mut out = String::new();
    for c in it: graph_name.chars()
        invariant
            it.seq() == graph_name@,
            out@ == safe_name(graph_name@.take(it.index())),
            forall|i: int|
                0 <= i < it.index() && graph_name@[i] < '\u{80}' ==> #[trigger] out@[i]
                    == safe_char(graph_name@[i], is_ascii_letter_or_digit(graph_name@[i])),
            forall|i: int|
                0 <= i < out@.len() && #[trigger] out@[i] < '\u{80}' ==> is_ascii_letter_or_digit(
                    out@[i],
                ) || out@[i] == '-' || out@[i] == '_',
    {
        let alphanumeric = c.is_alphanumeric();
        out.push(replace_unsafe_char(c, alphanumeric));
        assert(out@ =~= safe_name(graph_name@.take(it.index() + 1)));
    }
    assert(graph_name@.take(graph_name@.len() as int) =~= graph_name@);
    out
}

/// The files that a rendering needs, and the argument that tells `dot` which
/// kind of image to make.
#[derive(Debug)]
pub struct RenderFiles {
    pub gv_file: String,
    pub image_file: String,
    pub format_arg: String,
}

/// The files for the graph called `graph_name`, with `suffix` after its name.
pub open spec fn are_files_for(
    files: RenderFiles,
    graph_name: Seq<char>,
    suffix: Seq<char>,
    format: Seq<char>,
) -> bool {
    &&& files.gv_file@ == safe_name(graph_name) + suffix + ".gv"@
    &&& files.image_file@ == safe_name(graph_name) + suffix + "."@ + format
    &&& files.format_arg@ == "-T"@ + format
}

fn files_for(graph_name: &str, suffix: &str, format: &str) -> (files: RenderFiles)
    ensures
        are_files_for(files, graph_name@, suffix@, format@),
{
    let stem = file_stem(graph_name);
    let mut gv_file = stem.clone();
    gv_file.push_str(suffix);
    gv_file.push_str(".gv");
    let mut image_file = stem;
    image_file.push_str(suffix);
    image_file.push_str(".");
    image_file.push_str(format);
    let mut format_arg = String::new();
    format_arg.push_str("-T");
    format_arg.push_str(format);
    assert(format_arg@ =~= "-T"@ + format@);
    RenderFiles { gv_file, image_file, format_arg }
}

/// The files for the drawing of a whole graph.
pub fn graph_files(graph_name: &str, format: &str) -> (files: RenderFiles)
    ensures
        are_files_for(files, graph_name@, seq![], format@),
        files.gv_file@ == safe_name(graph_name@) + ".gv"@,
        files.image_file@ == safe_name(graph_name@) + "."@ + format@,
        files.format_arg@ == "-T"@ + format@,
{
    proof {
        reveal_strlit("");
        assert(""@ =~= seq![]);
        assert(safe_name(graph_name@) + seq![] =~= safe_name(graph_name@));
    }
    files_for(graph_name, "", format)
}

/// The files for the drawing of paths through a graph.
pub fn paths_files(graph_name: &str, format: &str) -> (files: RenderFiles)
    ensures
        are_files_for(files, graph_name@, "_paths"@, format@),
        files.gv_file@ == safe_name(graph_name@) + "_paths"@ + ".gv"@,
        files.image_file@ == safe_name(graph_name@) + "_paths"@ + "."@ + format@,
        files.format_arg@ == "-T"@ + format@,
{
    files_for(graph_name, "_paths", format)
}

/// The image of a drawing never takes the place of the drawing itself, unless
/// its format is called like the language of the drawing.
pub proof fn law_image_is_another_file(
    files: RenderFiles,
    graph_name: Seq<char>,
    suffix: Seq<char>,
    format: Seq<char>,
)
    requires
        are_files_for(files, graph_name, suffix, format),
        files.gv_file@ == files.image_file@,
    ensures
        format == "gv"@,
{
    reveal_strlit(".gv");
    reveal_strlit(".");
    reveal_strlit("gv");
    let n = safe_name(graph_name).len() + suffix.len();
    let gv = files.gv_file@.skip(n as int + 1);
    assert(gv =~= "gv"@);
    assert(files.image_file@.skip(n as int + 1) =~= format);
}

/// What a rendering made: the drawing and its image.
#[derive(Debug)]
pub struct RenderResult {
    pub gv_path: String,
    pub image_path: String,
}

/// Why a drawing could not be rendered.
#[derive(Debug)]
pub enum RenderError {
    /// `dot` failed, with this exit code if it had one.
    DotFailed(Option<i32>),
    /// There is no `dot`.
    DotNotFound,
}

/// An exit code in words.
pub open spec fn code_text(code: Option<i32>) -> Seq<char> {
    match code {
        Some(n) => "Some("@ + decimal(n as int) + ")"@,
        None => "None"@,
    }
}

impl RenderError {
    /// The error in words.
    pub fn message(&self) -> (out: String)
        ensures
            out@ == match *self {
                RenderError::DotFailed(code) => "dot exited with status "@ + code_text(code),
                RenderError::DotNotFound =>
                    "graphviz `dot` not found. Install with `brew install graphviz`."@,
            },
            self matches RenderError::DotFailed(Some(n)) ==> out@ == "dot exited with status "@ + (
            "Some("@ + decimal(n as int) + ")"@),
            self matches RenderError::DotFailed(None) ==> out@ == "dot exited with status "@
                + "None"@,
    {
        let mut out = String::new();
        match self {
            RenderError::DotFailed(code) => {
                out.push_str("dot exited with status ");
                match code {
                    Some(n) => {
                        out.push_str("Some(");
                        push_decimal(&mut out, *n as i64);
                        out.push_str(")");
                    },
                    None => {
                        out.push_str("None");
                    },
                }
                assert(out@ =~= "dot exited with status "@ + code_text(*code));
            },
            RenderError::DotNotFound => {
                out.push_str("graphviz `dot` not found. Install with `brew install graphviz`.");
                assert(out@
                    =~= "graphviz `dot` not found. Install with `brew install graphviz`."@);
            },
        }
        out
    }
}

/// What a run of `dot` came to, by whether it succeeded and its exit code.
pub fn render_outcome(
    success: bool,
    code: Option<i32>,
    gv_path: String,
    image_path: String,
) -> (res: Result<RenderResult, RenderError>)
    ensures
        match res {
            Ok(r) => success && r.gv_path@ == gv_path@ && r.image_path@ == image_path@,
            Err(e) => !success && e == RenderError::DotFailed(code),
        },
{
    if !success {
        return Err(RenderError::DotFailed(code));
    }
    Ok(RenderResult { gv_path, image_path })
}

/// The number of places where `dot` is looked for first.
pub const PLACES: usize = 3;

/// The places where `dot` is looked for first.
pub open spec fn place(i: nat) -> Seq<char> {
    if i == 0 {
        "/usr/local/bin/dot"@
    } else if i == 1 {
        "/opt/homebrew/bin/dot"@
    } else {
        "/usr/bin/dot"@
    }
}

/// The `i`-th place where `dot` is looked for.
pub fn dot_place(i: usize) -> (path: &'static str)
    requires
        i < PLACES,
    ensures
        path@ == place(i as nat),
        i == 0 ==> path@ == "/usr/local/bin/dot"@,
        i == 1 ==> path@ == "/opt/homebrew/bin/dot"@,
        i == 2 ==> path@ == "/usr/bin/dot"@,
{
    if i == 0 {
        "/usr/local/bin/dot"
    } else if i == 1 {
        "/opt/homebrew/bin/dot"
    } else {
        "/usr/bin/dot"
    }
}

/// What to do next in the search for `dot`, or what it came to.
#[derive(Debug)]
pub enum DotLookup {
    /// See whether there is a file at this place.
    TestPlace(usize),
    /// Ask the shell where `dot` is.
    AskShell,
    /// `dot` is this program.
    Found(String),
    /// There is no `dot`.
    NotFound,
}

/// What a [`DotLookup`] holds.
pub enum LookupView {
    TestPlace(nat),
    AskShell,
    Found(Seq<char>),
    NotFound,
}

impl View for DotLookup {
    type V = LookupView;

    open spec fn view(&self) -> LookupView {
        match self {
            DotLookup::TestPlace(i) => LookupView::TestPlace(*i as nat),
            DotLookup::AskShell => LookupView::AskShell,
            DotLookup::Found(path) => LookupView::Found(path@),
            DotLookup::NotFound => LookupView::NotFound,
        }
    }
}

/// What follows from whether there is a file at the `i`-th place.
pub open spec fn after_test(i: nat, has_file: bool) -> LookupView {
    if has_file {
        LookupView::Found(place(i))
    } else if i + 1 < PLACES {
        LookupView::TestPlace(i + 1)
    } else {
        LookupView::AskShell
    }
}

/// What follows from the answer of the shell, without the space around it.
pub open spec fn after_answer(success: bool, answer: Seq<char>) -> LookupView {
    if success && answer.len() > 0 {
        LookupView::Found(answer)
    } else {
        LookupView::NotFound
    }
}

/// Starts the search for `dot`.
pub fn start_lookup() -> (next: DotLookup)
    ensures
        next@ == LookupView::TestPlace(0),
{
    DotLookup::TestPlace(0)
}

/// Goes on with the search for `dot`, after a look at the `i`-th place.
pub fn place_tested(i: usize, has_file: bool) -> (next: DotLookup)
    requires
        i < PLACES,
    ensures
        next@ == after_test(i as nat, has_file),
        has_file && i == 0 ==> next@ == LookupView::Found("/usr/local/bin/dot"@),
        has_file && i == 1 ==> next@ == LookupView::Found("/opt/homebrew/bin/dot"@),
        has_file && i == 2 ==> next@ == LookupView::Found("/usr/bin/dot"@),
        !has_file && i < 2 ==> next@ == LookupView::TestPlace((i + 1) as nat),
        !has_file && i == 2 ==> next@ == LookupView::AskShell,
{
    if has_file {
        DotLookup::Found(dot_place(i).to_owned())
    } else if i + 1 < PLACES {
        DotLookup::TestPlace(i + 1)
    } else {
        DotLookup::AskShell
    }
}

/// The text that `String::from_utf8_lossy` makes of the bytes.
pub uninterp spec fn lossy_text(bytes: Seq<u8>) -> Seq<char>;

/// `String::from_utf8_lossy` turns bytes into text, with replacement
/// characters for what is no UTF-8. The text depends on the bytes alone; of
/// valid UTF-8 it is the text that they encode.
#[verifier::external_body]
fn utf8_lossy(bytes: &[u8]) -> (text: String)
    ensures
        text@ == lossy_text(bytes@),
        valid_utf8(bytes@) ==> text@ == decode_utf8(bytes@),
{
    String::from_utf8_lossy(bytes).into_owned()
}

/// Whether `char::is_whitespace` holds of `c`: whether it has the property
/// White_Space of the Unicode Standard.
pub uninterp spec fn is_space(c: char) -> bool;

/// `char::is_whitespace` tells whether a character has the property
/// White_Space. This depends on the character alone; of the ASCII characters
/// it holds for the space and for those from the tab to the carriage return.
pub assume_specification[ char::is_whitespace ](c: char) -> (res: bool)
    ensures
        res == is_space(c),
        c < '\u{80}' ==> res == (c == ' ' || '\t' <= c <= '\r'),
;

/// The characters that `char::is_whitespace` holds of.
pub open spec fn any_space() -> spec_fn(char) -> bool {
    |c: char| is_space(c)
}

/// The ASCII characters among them.
pub open spec fn ascii_space() -> spec_fn(char) -> bool {
    |c: char| c == ' ' || '\t' <= c <= '\r'
}

/// Whether the text is made of ASCII characters.
pub open spec fn is_ascii_text(s: Seq<char>) -> bool {
    forall|i: int| 0 <= i < s.len() ==> #[trigger] s[i] < '\u{80}'
}

/// The text without the space before it.
pub open spec fn without_space_before(s: Seq<char>, space: spec_fn(char) -> bool) -> Seq<char>
    decreases s.len(),
{
    if s.len() == 0 || !space(s.first()) {
        s
    } else {
        without_space_before(s.drop_first(), space)
    }
}

/// The text without the space after it.
pub open spec fn without_space_after(s: Seq<char>, space: spec_fn(char) -> bool) -> Seq<char>
    decreases s.len(),
{
    if s.len() == 0 || !space(s.last()) {
        s
    } else {
        without_space_after(s.drop_last(), space)
    }
}

/// The text without the space around it.
pub open spec fn trimmed(s: Seq<char>, space: spec_fn(char) -> bool) -> Seq<char> {
    without_space_after(without_space_before(s, space), space)
}

proof fn lemma_trimmed_agree(s: Seq<char>, f: spec_fn(char) -> bool, g: spec_fn(char) -> bool)
    requires
        forall|i: int| 0 <= i < s.len() ==> f(#[trigger] s[i]) == g(s[i]),
    ensures
        trimmed(s, f) == trimmed(s, g),
{
    lemma_before_agrees(s, f, g);
    lemma_after_agrees(without_space_before(s, f), f, g);
}

proof fn lemma_before_agrees(s: Seq<char>, f: spec_fn(char) -> bool, g: spec_fn(char) -> bool)
    requires
        forall|i: int| 0 <= i < s.len() ==> f(#[trigger] s[i]) == g(s[i]),
    ensures
        without_space_before(s, f) == without_space_before(s, g),
        forall|i: int|
            0 <= i < without_space_before(s, f).len() ==> f(
                #[trigger] without_space_before(s, f)[i],
            ) == g(without_space_before(s, f)[i]),
    decreases s.len(),
{
    if s.len() > 0 {
        assert(f(s[0]) == g(s[0]));
        if f(s[0]) {
            let rest = s.drop_first();
            assert forall|i: int| 0 <= i < rest.len() implies f(#[trigger] rest[i]) == g(
                rest[i],
            ) by {
                assert(f(s[i + 1]) == g(s[i + 1]));
            }
            lemma_before_agrees(rest, f, g);
        }
    }
}

proof fn lemma_after_agrees(s: Seq<char>, f: spec_fn(char) -> bool, g: spec_fn(char) -> bool)
    requires
        forall|i: int| 0 <= i < s.len() ==> f(#[trigger] s[i]) == g(s[i]),
    ensures
        without_space_after(s, f) == without_space_after(s, g),
    decreases s.len(),
{
    if s.len() > 0 {
        assert(f(s[s.len() - 1]) == g(s[s.len() - 1]));
        if f(s.last()) {
            let rest = s.drop_last();
            assert forall|i: int| 0 <= i < rest.len() implies f(#[trigger] rest[i]) == g(
                rest[i],
            ) by {
                assert(f(s[i]) == g(s[i]));
            }
            lemma_after_agrees(rest, f, g);
        }
    }
}

/// Takes the space around the text away.
pub fn trim(text: &str) -> (out: String)
    ensures
        out@ == trimmed(text@, any_space()),
        is_ascii_text(text@) ==> out@ == trimmed(text@, ascii_space()),
{
    let ghost s = text@;
    let ghost space = any_space();
    let mut chars: Vec<char> = Vec::new();
    let mut spaces: Vec<bool> = Vec::new();
    for c in it: text.chars()
        invariant
            it.seq() == s,
            s == text@,
            space == any_space(),
            chars@ == s.take(it.index()),
            spaces.len() == chars.len(),
            forall|i: int| 0 <= i < chars.len() ==> #[trigger] spaces@[i] == space(chars@[i]),
            forall|i: int|
                0 <= i < chars.len() && chars@[i] < '\u{80}' ==> #[trigger] spaces@[i]
                    == ascii_space()(chars@[i]),
    {
        spaces.push(c.is_whitespace());
        chars.push(c);
    }
    assert(s.take(s.len() as int) =~= s);
    proof {
        if is_ascii_text(s) {
            assert forall|i: int| 0 <= i < s.len() implies space(#[trigger] s[i]) == ascii_space()(
                s[i],
            ) by {
                assert(spaces@[i] == space(chars@[i]));
            }
            lemma_trimmed_agree(s, space, ascii_space());
        }
    }
    let mut from: usize = 0;
    assert(s.skip(0) =~= s);
    while from < chars.len() && spaces[from]
        invariant
            from <= chars.len(),
            chars@ == s,
            spaces.len() == chars.len(),
            forall|i: int| 0 <= i < chars.len() ==> #[trigger] spaces@[i] == space(chars@[i]),
            without_space_before(s, space) == without_space_before(s.skip(from as int), space),
        decreases chars.len() - from,
    {
        assert(s.skip(from as int).drop_first() =~= s.skip(from + 1));
        from += 1;
    }
    let ghost rest = s.skip(from as int);
    assert(without_space_before(s, space) == rest);
    let mut to: usize = chars.len();
    assert(s.subrange(from as int, to as int) =~= rest);
    while to > from && spaces[to - 1]
        invariant
            from <= to <= chars.len(),
            chars@ == s,
            spaces.len() == chars.len(),
            forall|i: int| 0 <= i < chars.len() ==> #[trigger] spaces@[i] == space(chars@[i]),
            without_space_after(rest, space) == without_space_after(
                s.subrange(from as int, to as int),
                space,
            ),
        decreases to,
    {
        assert(s.subrange(from as int, to as int).drop_last() =~= s.subrange(
            from as int,
            to - 1,
        ));
        to -= 1;
    }
    assert(trimmed(s, space) == s.subrange(from as int, to as int));
    let mut out = String::new();
    let mut i: usize = from;
    while i < to
        invariant
            from <= i <= to <= chars.len(),
            chars@ == s,
            out@ == s.subrange(from as int, i as int),
        decreases to - i,
    {
        out.push(chars[i]);
        assert(out@ =~= s.subrange(from as int, i + 1));
        i += 1;
    }
    out
}

/// Ends the search for `dot`, by whether the shell knew where it is and its
/// answer, without the space around it.
pub fn answer_given(success: bool, answer: String) -> (next: DotLookup)
    ensures
        next@ == after_answer(success, answer@),
        success && answer@.len() > 0 ==> next@ == LookupView::Found(answer@),
        !success || answer@.len() == 0 ==> next@ is NotFound,
{
    if success && !answer.as_str().is_empty() {
        DotLookup::Found(answer)
    } else {
        DotLookup::NotFound
    }
}

/// Ends the search for `dot`, by whether the shell knew where it is and the
/// text that it wrote.
pub fn shell_said(success: bool, text: &str) -> (next: DotLookup)
    ensures
        next@ == after_answer(success, trimmed(text@, any_space())),
        is_ascii_text(text@) ==> next@ == after_answer(success, trimmed(text@, ascii_space())),
{
    answer_given(success, trim(text))
}

/// Ends the search for `dot`, by whether the shell knew where it is and the
/// bytes that it wrote.
pub fn shell_answered(success: bool, stdout: &[u8]) -> (next: DotLookup)
    ensures
        next@ == after_answer(success, trimmed(lossy_text(stdout@), any_space())),
        valid_utf8(stdout@) ==> next@ == after_answer(
            success,
            trimmed(decode_utf8(stdout@), any_space()),
        ),
        valid_utf8(stdout@) && is_ascii_text(decode_utf8(stdout@)) ==> next@ == after_answer(
            success,
            trimmed(decode_utf8(stdout@), ascii_space()),
        ),
{
    let text = utf8_lossy(stdout);
    shell_said(success, text.as_str())
}

/// What the search for `dot` comes to from `next` on, if there are files at
/// the places of which `has_file` holds, and the shell gives the answer.
pub open spec fn lookup_from(
    next: LookupView,
    has_file: spec_fn(nat) -> bool,
    success: bool,
    answer: Seq<char>,
) -> LookupView
    decreases
            match next {
                LookupView::TestPlace(i) => PLACES + 1 - i,
                LookupView::AskShell => 1,
                _ => 0,
            },
{
    match next {
        LookupView::TestPlace(i) => if i < PLACES {
            lookup_from(after_test(i, has_file(i)), has_file, success, answer)
        } else {
            LookupView::NotFound
        },
        LookupView::AskShell => after_answer(success, answer),
        _ => next,
    }
}

proof fn lemma_lookup_from(
    i: nat,
    k: nat,
    has_file: spec_fn(nat) -> bool,
    success: bool,
    answer: Seq<char>,
)
    requires
        i <= k <= PLACES,
        i < PLACES,
        k < PLACES ==> has_file(k),
        forall|j: nat| i <= j < k ==> !(#[trigger] has_file(j)),
    ensures
        lookup_from(LookupView::TestPlace(i), has_file, success, answer) == if k < PLACES {
            LookupView::Found(place(k))
        } else {
            after_answer(success, answer)
        },
    decreases k - i,
{
    reveal_with_fuel(lookup_from, 3);
    if i < k {
        assert(!has_file(i));
        if i + 1 < PLACES {
            lemma_lookup_from(i + 1, k, has_file, success, answer);
        }
    }
}

/// The search for `dot` finds the first place where there is a file, and goes
/// by the answer of the shell only if there is a file at none.
pub proof fn law_first_place_wins(
    k: nat,
    has_file: spec_fn(nat) -> bool,
    success: bool,
    answer: Seq<char>,
)
    requires
        k <= PLACES,
        k < PLACES ==> has_file(k),
        forall|j: nat| j < k ==> !(#[trigger] has_file(j)),
    ensures
        lookup_from(LookupView::TestPlace(0), has_file, success, answer) == if k < PLACES {
            LookupView::Found(place(k))
        } else {
            after_answer(success, answer)
        },
{
    lemma_lookup_from(0, k, has_file, success, answer);
}

/// The search for `dot` looks at three places, one after the other, and then
/// goes by the answer of the shell, if it gave one.
pub proof fn law_where_dot_is_found(
    has_file: spec_fn(nat) -> bool,
    success: bool,
    answer: Seq<char>,
)
    ensures
        lookup_from(LookupView::TestPlace(0), has_file, success, answer) == if has_file(0) {
            LookupView::Found("/usr/local/bin/dot"@)
        } else if has_file(1) {
            LookupView::Found("/opt/homebrew/bin/dot"@)
        } else if has_file(2) {
            LookupView::Found("/usr/bin/dot"@)
        } else if success && answer.len() > 0 {
            LookupView::Found(answer)
        } else {
            LookupView::NotFound
        },
{
    let k: nat = if has_file(0) {
        0
    } else if has_file(1) {
        1
    } else if has_file(2) {
        2
    } else {
        3
    };
    assert forall|j: nat| j < k implies !(#[trigger] has_file(j)) by {
        assert(j == 0 || j == 1 || j == 2);
    }
    law_first_place_wins(k, has_file, success, answer);
}

proof fn lemma_trimmed(s: Seq<char>, space: spec_fn(char) -> bool) -> (at: (int, int))
    ensures
        0 <= at.0 <= at.1 <= s.len(),
        trimmed(s, space) == s.subrange(at.0, at.1),
        forall|i: int| 0 <= i < at.0 ==> space(#[trigger] s[i]),
        forall|i: int| at.1 <= i < s.len() ==> space(#[trigger] s[i]),
        at.0 < at.1 ==> !space(s[at.0]) && !space(s[at.1 - 1]),
{
    let from = lemma_without_space_before(s, space);
    let rest = s.skip(from);
    let to = lemma_without_space_after(rest, space);
    assert(rest.take(to) =~= s.subrange(from, from + to));
    assert forall|i: int| from + to <= i < s.len() implies space(#[trigger] s[i]) by {
        assert(rest[i - from] == s[i]);
    }
    if 0 < to {
        assert(rest[0] == s[from]);
        assert(rest[to - 1] == s[from + to - 1]);
    }
    (from, from + to)
}

proof fn lemma_without_space_before(s: Seq<char>, space: spec_fn(char) -> bool) -> (from: int)
    ensures
        0 <= from <= s.len(),
        without_space_before(s, space) == s.skip(from),
        forall|i: int| 0 <= i < from ==> space(#[trigger] s[i]),
        from < s.len() ==> !space(s[from]),
    decreases s.len(),
{
    if s.len() == 0 || !space(s.first()) {
        assert(s.skip(0) =~= s);
        0
    } else {
        let rest = s.drop_first();
        let k = lemma_without_space_before(rest, space);
        assert(rest.skip(k) =~= s.skip(k + 1));
        assert forall|i: int| 0 <= i < k + 1 implies space(#[trigger] s[i]) by {
            if i > 0 {
                assert(rest[i - 1] == s[i]);
            }
        }
        k + 1
    }
}

proof fn lemma_without_space_after(s: Seq<char>, space: spec_fn(char) -> bool) -> (to: int)
    ensures
        0 <= to <= s.len(),
        without_space_after(s, space) == s.take(to),
        forall|i: int| to <= i < s.len() ==> space(#[trigger] s[i]),
        0 < to ==> !space(s[to - 1]),
    decreases s.len(),
{
    if s.len() == 0 || !space(s.last()) {
        assert(s.take(s.len() as int) =~= s);
        s.len() as int
    } else {
        let rest = s.drop_last();
        let k = lemma_without_space_after(rest, space);
        assert(rest.take(k) =~= s.take(k));
        assert forall|i: int| k <= i < s.len() implies space(#[trigger] s[i]) by {
            if i < rest.len() {
                assert(rest[i] == s[i]);
            }
        }
        k
    }
}

/// Trimmed text is the text from its first character that is no space to its
/// last one.
pub proof fn law_trimming_takes_space_away(s: Seq<char>) -> (at: (int, int))
    ensures
        0 <= at.0 <= at.1 <= s.len(),
        trimmed(s, any_space()) == s.subrange(at.0, at.1),
        forall|i: int| 0 <= i < at.0 ==> is_space(#[trigger] s[i]),
        forall|i: int| at.1 <= i < s.len() ==> is_space(#[trigger] s[i]),
        at.0 < at.1 ==> !is_space(s[at.0]) && !is_space(s[at.1 - 1]),
{
    let at = lemma_trimmed(s, any_space());
    assert forall|i: int| 0 <= i < at.0 implies is_space(#[trigger] s[i]) by {
        assert(any_space()(s[i]));
    }
    assert forall|i: int| at.1 <= i < s.len() implies is_space(#[trigger] s[i]) by {
        assert(any_space()(s[i]));
    }
    at
}

/// The same for space of the ASCII characters: the space and the characters
/// from the tab to the carriage return.
pub proof fn law_trimming_takes_ascii_space_away(s: Seq<char>) -> (at: (int, int))
    ensures
        0 <= at.0 <= at.1 <= s.len(),
        trimmed(s, ascii_space()) == s.subrange(at.0, at.1),
        forall|i: int| 0 <= i < at.0 ==> #[trigger] s[i] == ' ' || '\t' <= s[i] <= '\r',
        forall|i: int| at.1 <= i < s.len() ==> #[trigger] s[i] == ' ' || '\t' <= s[i] <= '\r',
        at.0 < at.1 ==> !(s[at.0] == ' ' || '\t' <= s[at.0] <= '\r') && !(s[at.1 - 1] == ' '
            || '\t' <= s[at.1 - 1] <= '\r'),
{
    let at = lemma_trimmed(s, ascii_space());
    assert forall|i: int| 0 <= i < at.0 implies #[trigger] s[i] == ' ' || '\t' <= s[i]
        <= '\r' by {
        assert(ascii_space()(s[i]));
    }
    assert forall|i: int| at.1 <= i < s.len() implies #[trigger] s[i] == ' ' || '\t' <= s[i]
        <= '\r' by {
        assert(ascii_space()(s[i]));
    }
    at
}

/// The name of a file has as many characters as the name of its graph. It
/// keeps those that are letters or numbers, `-` or `_`, and has `_` for the
/// others.
pub proof fn law_names_of_files(graph_name: Seq<char>, i: int)
    requires
        0 <= i < graph_name.len(),
    ensures
        safe_name(graph_name).len() == graph_name.len(),
        is_letter_or_number(graph_name[i]) || graph_name[i] == '-' || graph_name[i] == '_'
            ==> safe_name(graph_name)[i] == graph_name[i],
        !is_letter_or_number(graph_name[i]) && graph_name[i] != '-' && graph_name[i] != '_'
            ==> safe_name(graph_name)[i] == '_',
{
}

} // verus!
