//! The Solidity side: finding the `error` declarations of a source file and
//! the `//#Message:` comment written above each of them.

use vstd::prelude::*;

use vstd::utf8::encode_utf8;

use crate::find_selector::{find_selector, selector_of};
use crate::handle_parse_all_files::{duplicate_inputs, ABIInput, AbiInputView, inputs_view};
use crate::strmap::StrMap;
use crate::text::{
    before_char, before_char_chars, chars_of, collapse_white_space, collapse_white_space_chars,
    contains_char, lemma_collapse_keeps, lemma_delete_char, lemma_replace_keeps_absent,
    lemma_replace_absent, lemma_replace_front, lemma_replace_keeps_present,
    lemma_replace_skips_prefix, lemma_split_on_len, lemma_trim_keeps_visible, lines, lines_chars,
    lowercase, replace_all, replace_chars, split_chars, split_on, starts_with, starts_with_chars,
    string_of, to_lowercase, trim, trim_chars, views,
};

verus! {

/// `error ` (with its space), which cleaning drops from a declaration.
pub open spec fn error_keyword() -> Seq<char> {
    seq!['e', 'r', 'r', 'o', 'r', ' ']
}

/// A declaration with its white space normalised: runs of white space become
/// one space, spaces after `,` and `(` and before `)` go, the ends are
/// trimmed, and every `;` and every `error ` is taken out.
pub open spec fn cleaned_text(input: Seq<char>) -> Seq<char> {
    let m = collapse_white_space(input);
    let m = replace_all(m, seq![',', ' '], seq![',']);
    let m = replace_all(m, seq!['(', ' '], seq!['(']);
    let m = replace_all(m, seq![' ', ')'], seq![')']);
    replace_all(replace_all(trim(m), seq![';'], seq![]), error_keyword(), seq![])
}

fn cleanup_chars(input: &Vec<char>) -> (r: Vec<char>)
    ensures
        r@ == cleaned_text(input@),
{
    let comma_space = vec![',', ' '];
    let comma = vec![','];
    let open_space = vec!['(', ' '];
    let open = vec!['('];
    let space_close = vec![' ', ')'];
    let close = vec![')'];
    let semicolon = vec![';'];
    let keyword = vec!['e', 'r', 'r', 'o', 'r', ' '];
    let nothing: Vec<char> = Vec::new();
    assert(comma_space@ =~= seq![',', ' ']);
    assert(comma@ =~= seq![',']);
    assert(open_space@ =~= seq!['(', ' ']);
    assert(open@ =~= seq!['(']);
    assert(space_close@ =~= seq![' ', ')']);
    assert(close@ =~= seq![')']);
    assert(semicolon@ =~= seq![';']);
    assert(keyword@ =~= error_keyword());
    assert(nothing@ =~= seq![]);
    let m = collapse_white_space_chars(input);
    let m = replace_chars(&m, &comma_space, &comma);
    let m = replace_chars(&m, &open_space, &open);
    let m = replace_chars(&m, &space_close, &close);
    let m = trim_chars(&m);
    let m = replace_chars(&m, &semicolon, &nothing);
    replace_chars(&m, &keyword, &nothing)
}

/// Normalises the text of an error declaration (see `cleaned_text`).
pub fn cleanup_text_input(input: &str) -> (r: String)
    ensures
        r@ == cleaned_text(input@),
{
    let v = chars_of(input);
    string_of(&cleanup_chars(&v))
}

/// A comment line: once trimmed it starts with `//`, or it holds a `*`
/// anywhere (a block-comment line).
pub open spec fn is_comment(line: Seq<char>) -> bool {
    starts_with(trim(line), seq!['/', '/']) || trim(line).contains('*')
}

fn is_comment_chars(line: &Vec<char>) -> (b: bool)
    ensures
        b == is_comment(line@),
{
    let t = trim_chars(line);
    let slashes = vec!['/', '/'];
    assert(slashes@ =~= seq!['/', '/']);
    starts_with_chars(&t, &slashes) || contains_char(&t, '*')
}

/// Whether `line` is a comment line (see `is_comment`).
pub fn is_comment_line(line: &str) -> (b: bool)
    ensures
        b == is_comment(line@),
{
    let v = chars_of(line);
    is_comment_chars(&v)
}

/// `//#message:`, the marker of a message line, in lower case.
pub open spec fn message_marker() -> Seq<char> {
    seq!['/', '/', '#', 'm', 'e', 's', 's', 'a', 'g', 'e', ':']
}

/// `//# message:`, the marker with a space, in lower case.
pub open spec fn spaced_message_marker() -> Seq<char> {
    seq!['/', '/', '#', ' ', 'm', 'e', 's', 's', 'a', 'g', 'e', ':']
}

/// The message a trimmed marker line carries: every `//` and `*` taken out,
/// then the markers `#message: `, `#Message: ` and `# Message: `, then the
/// white space at both ends.
pub open spec fn message_body(t: Seq<char>) -> Seq<char> {
    let m = replace_all(t, seq!['/', '/'], seq![]);
    let m = replace_all(m, seq!['*'], seq![]);
    let m = replace_all(m, seq!['#', 'm', 'e', 's', 's', 'a', 'g', 'e', ':', ' '], seq![]);
    let m = replace_all(m, seq!['#', 'm', 'e', 's', 's', 'a', 'g', 'e', ':', ' '], seq![]);
    let m = replace_all(m, seq!['#', 'M', 'e', 's', 's', 'a', 'g', 'e', ':', ' '], seq![]);
    let m = replace_all(m, seq!['#', ' ', 'M', 'e', 's', 's', 'a', 'g', 'e', ':', ' '], seq![]);
    trim(m)
}

/// The message of a line, if it is a message line: one whose trimmed text,
/// in lower case, starts with `//#message:` or `//# message:`.
pub open spec fn message_of(line: Seq<char>) -> Option<Seq<char>> {
    let t = trim(line);
    let lower = lowercase(t);
    if starts_with(t, seq!['/', '/']) && (starts_with(lower, message_marker()) || starts_with(
        lower,
        spaced_message_marker(),
    )) {
        Some(message_body(t))
    } else {
        None
    }
}

fn message_body_chars(t: &Vec<char>) -> (r: Vec<char>)
    ensures
        r@ == message_body(t@),
{
    let slashes = vec!['/', '/'];
    let star = vec!['*'];
    let lower = vec!['#', 'm', 'e', 's', 's', 'a', 'g', 'e', ':', ' '];
    let upper = vec!['#', 'M', 'e', 's', 's', 'a', 'g', 'e', ':', ' '];
    let spaced = vec!['#', ' ', 'M', 'e', 's', 's', 'a', 'g', 'e', ':', ' '];
    let nothing: Vec<char> = Vec::new();
    assert(slashes@ =~= seq!['/', '/']);
    assert(star@ =~= seq!['*']);
    assert(lower@ =~= seq!['#', 'm', 'e', 's', 's', 'a', 'g', 'e', ':', ' ']);
    assert(upper@ =~= seq!['#', 'M', 'e', 's', 's', 'a', 'g', 'e', ':', ' ']);
    assert(spaced@ =~= seq!['#', ' ', 'M', 'e', 's', 's', 'a', 'g', 'e', ':', ' ']);
    assert(nothing@ =~= seq![]);
    let m = replace_chars(t, &slashes, &nothing);
    let m = replace_chars(&m, &star, &nothing);
    let m = replace_chars(&m, &lower, &nothing);
    let m = replace_chars(&m, &lower, &nothing);
    let m = replace_chars(&m, &upper, &nothing);
    let m = replace_chars(&m, &spaced, &nothing);
    trim_chars(&m)
}

fn message_of_chars(line: &Vec<char>) -> (r: Option<Vec<char>>)
    ensures
        match r {
            Some(m) => message_of(line@) == Some(m@),
            None => message_of(line@) is None,
        },
        r is Some ==> is_comment(line@),
{
    let t = trim_chars(line);
    let lower = chars_of(to_lowercase(string_of(&t).as_str()).as_str());
    let marker = vec!['/', '/', '#', 'm', 'e', 's', 's', 'a', 'g', 'e', ':'];
    let spaced_marker = vec!['/', '/', '#', ' ', 'm', 'e', 's', 's', 'a', 'g', 'e', ':'];
    assert(marker@ =~= message_marker());
    assert(spaced_marker@ =~= spaced_message_marker());
    if starts_with_chars(&lower, &marker) || starts_with_chars(&lower, &spaced_marker) {
        proof {
            assert(lower@.take(2) =~= seq!['/', '/']);
            assert(starts_with(lower@, seq!['/', '/']));
            assert(starts_with(t@, seq!['/', '/']));
            law_message_lines_are_comments(line@);
        }
        Some(message_body_chars(&t))
    } else {
        None
    }
}

/// Whether `line` is a message line, and its message if it is (see
/// `message_of`). A message line is a comment line.
pub fn is_message_line(line: &str) -> (r: (bool, Option<String>))
    ensures
        r.0 == message_of(line@) is Some,
        r.0 ==> is_comment(line@),
        match r.1 {
            Some(m) => message_of(line@) == Some(m@),
            None => message_of(line@) is None,
        },
{
    let v = chars_of(line);
    match message_of_chars(&v) {
        Some(m) => (true, Some(string_of(&m))),
        None => (false, None),
    }
}


/// The parameter that one comma-separated piece of a parameter list
/// declares: its trimmed text cut at spaces gives the type (first piece) and
/// the name (second piece, empty when there is none).
pub open spec fn arg_of(piece: Seq<char>) -> AbiInputView {
    let words = split_on(trim(piece), ' ');
    AbiInputView {
        name: Some(if words.len() > 1 { words[1] } else { seq![] }),
        kind: Some(words[0]),
        internal_kind: Some(words[0]),
    }
}

/// The parameters of a cleaned declaration: the text between its first `(`
/// and the next `(` (or the end), with every `)` taken out, cut at commas;
/// none when that text is empty.
pub open spec fn args_of(line: Seq<char>) -> Seq<AbiInputView> {
    let inner = replace_all(split_on(line, '(')[1], seq![')'], seq![]);
    if inner.len() == 0 {
        seq![]
    } else {
        split_on(inner, ',').map_values(|p: Seq<char>| arg_of(p))
    }
}

fn arg_of_chars(piece: &Vec<char>) -> (r: ABIInput)
    ensures
        r@ == arg_of(piece@),
{
    let t = trim_chars(piece);
    let words = split_chars(&t, ' ');
    proof {
        lemma_split_on_len(t@, ' ');
    }
    assert(views(words@)[0] == words@[0]@);
    let name = if words.len() > 1 {
        assert(views(words@)[1] == words@[1]@);
        string_of(&words[1])
    } else {
        String::new()
    };
    ABIInput {
        name: Some(name),
        _type: Some(string_of(&words[0])),
        internal_type: Some(string_of(&words[0])),
    }
}

/// The parameters declared by a cleaned error declaration (see `args_of`);
/// each comes with its type as both type and internal type.
pub fn parse_args_from_cleaned_error(line: String) -> (r: Vec<ABIInput>)
    requires
        line@.contains('('),
    ensures
        inputs_view(r@) == args_of(line@),
{
    let v = chars_of(line.as_str());
    let parts = split_chars(&v, '(');
    proof {
        lemma_split_on_len(v@, '(');
    }
    assert(views(parts@)[1] == parts@[1]@);
    let close = vec![')'];
    let nothing: Vec<char> = Vec::new();
    assert(close@ =~= seq![')']);
    assert(nothing@ =~= seq![]);
    let inner = replace_chars(&parts[1], &close, &nothing);
    if inner.len() == 0 {
        let r: Vec<ABIInput> = Vec::new();
        assert(inputs_view(r@) =~= args_of(line@));
        return r;
    }
    let pieces = split_chars(&inner, ',');
    let ghost expected = views(pieces@).map_values(|p: Seq<char>| arg_of(p));
    let mut r: Vec<ABIInput> = Vec::new();
    let mut k: usize = 0;
    while k < pieces.len()
        invariant
            k <= pieces@.len(),
            expected == views(pieces@).map_values(|p: Seq<char>| arg_of(p)),
            inputs_view(r@) == expected.take(k as int),
        decreases pieces.len() - k,
    {
        let a = arg_of_chars(&pieces[k]);
        assert(views(pieces@)[k as int] == pieces@[k as int]@);
        assert(expected[k as int] == a@);
        let ghost old_r = inputs_view(r@);
        r.push(a);
        assert(inputs_view(r@) =~= old_r.push(a@));
        k = k + 1;
        assert(inputs_view(r@) =~= expected.take(k as int));
    }
    assert(expected.take(pieces@.len() as int) =~= expected);
    r
}


/// An error's message and the parameters its declaration names.
pub struct SolidityMessageAndArgs {
    pub error_message: String,
    pub args: Vec<ABIInput>,
}

/// The texts a `SolidityMessageAndArgs` holds.
pub ghost struct MessageAndArgsView {
    pub message: Seq<char>,
    pub args: Seq<AbiInputView>,
}

impl View for SolidityMessageAndArgs {
    type V = MessageAndArgsView;

    open spec fn view(&self) -> MessageAndArgsView {
        MessageAndArgsView { message: self.error_message@, args: inputs_view(self.args@) }
    }
}

impl SolidityMessageAndArgs {
    /// A copy with the same texts.
    pub fn duplicate(&self) -> (r: SolidityMessageAndArgs)
        ensures
            r@ == self@,
    {
        SolidityMessageAndArgs {
            error_message: self.error_message.clone(),
            args: duplicate_inputs(&self.args),
        }
    }
}

/// A cleaned declaration and the selector of its error's name.
pub struct Temp {
    pub cleaned_error: String,
    pub identifier: String,
}

/// The texts a `Temp` holds.
pub ghost struct TempView {
    pub cleaned_error: Seq<char>,
    pub identifier: Seq<char>,
}

impl View for Temp {
    type V = TempView;

    open spec fn view(&self) -> TempView {
        TempView { cleaned_error: self.cleaned_error@, identifier: self.identifier@ }
    }
}

/// The name a cleaned declaration declares: its text before the first `(`.
pub open spec fn identifier_of(cleaned: Seq<char>) -> Seq<char> {
    before_char(cleaned, '(')
}

/// Each declaration found, by error name: its cleaned text (a later
/// declaration of a name replaces an earlier one).
pub open spec fn declarations(found: Seq<Seq<char>>) -> Map<Seq<char>, Seq<char>>
    decreases found.len(),
{
    if found.len() == 0 {
        Map::empty()
    } else {
        let c = cleaned_text(found.last());
        declarations(found.drop_last()).insert(identifier_of(c), c)
    }
}

/// Each declaration found, by error name: its cleaned text and the selector
/// of the name.
pub open spec fn declaration_selectors(found: Seq<Seq<char>>) -> Map<Seq<char>, TempView>
    decreases found.len(),
{
    if found.len() == 0 {
        Map::empty()
    } else {
        let c = cleaned_text(found.last());
        declaration_selectors(found.drop_last()).insert(
            identifier_of(c),
            TempView { cleaned_error: c, identifier: selector_of(identifier_of(c)) },
        )
    }
}

/// A found declaration that the scanner can take: its cleaned text has a
/// parameter list, and its name is at least four bytes of UTF-8 (the
/// selector reads four bytes of a hash buffer as long as the name).
pub open spec fn usable_declaration(found: Seq<char>) -> bool {
    &&& cleaned_text(found).contains('(')
    &&& encode_utf8(identifier_of(cleaned_text(found))).len() >= 4
}

/// The message that line `i` takes: the first message line among the lines
/// `counter + 1`, `counter + 2`, ... above it, looking at most ten lines up
/// and not above the first line of the file.
pub open spec fn message_above(ls: Seq<Seq<char>>, i: int, counter: int) -> Option<Seq<char>>
    decreases 10 - counter,
{
    if counter >= 10 || i - (counter + 1) < 0 {
        None
    } else {
        match message_of(ls[i - (counter + 1)]) {
            Some(m) => Some(m),
            None => message_above(ls, i, counter + 1),
        }
    }
}

/// What line `i` records, if anything. A line records when its cleaned text
/// before `(` names a declaration and it is not the first line: with the
/// nearest message above (see `message_above`) when the line above is a
/// comment, and with no message when it is not; a comment above with no
/// message within reach records nothing.
pub open spec fn line_record(
    ls: Seq<Seq<char>>,
    decls: Map<Seq<char>, Seq<char>>,
    i: int,
) -> Option<(Seq<char>, MessageAndArgsView)> {
    let key = identifier_of(cleaned_text(ls[i]));
    if decls.contains_key(key) && i > 0 {
        if is_comment(ls[i - 1]) {
            match message_above(ls, i, 0) {
                Some(m) => Some((key, MessageAndArgsView { message: m, args: args_of(decls[key]) })),
                None => None,
            }
        } else {
            Some((key, MessageAndArgsView { message: seq![], args: args_of(decls[key]) }))
        }
    } else {
        None
    }
}

/// The messages of the first `n` lines, by error name; a later line's record
/// replaces an earlier one's.
pub open spec fn error_messages(
    ls: Seq<Seq<char>>,
    decls: Map<Seq<char>, Seq<char>>,
    n: nat,
) -> Map<Seq<char>, MessageAndArgsView>
    decreases n,
{
    if n == 0 {
        Map::empty()
    } else {
        let t = error_messages(ls, decls, (n - 1) as nat);
        match line_record(ls, decls, n - 1) {
            Some((k, v)) => t.insert(k, v),
            None => t,
        }
    }
}

fn message_above_chars(ls: &Vec<Vec<char>>, i: usize) -> (r: Option<Vec<char>>)
    requires
        0 < i < ls@.len(),
    ensures
        match r {
            Some(m) => message_above(views(ls@), i as int, 0) == Some(m@),
            None => message_above(views(ls@), i as int, 0) is None,
        },
{
    let mut counter: usize = 0;
    while counter < 10
        invariant
            counter <= 10,
            counter <= i < ls@.len(),
            message_above(views(ls@), i as int, 0) == message_above(views(ls@), i as int, counter as int),
        decreases 10 - counter,
    {
        if counter == i {
            return None;
        }
        counter = counter + 1;
        assert(views(ls@)[i - counter] == ls@[i - counter]@);
        match message_of_chars(&ls[i - counter]) {
            Some(m) => {
                return Some(m);
            },
            None => {},
        }
    }
    None
}

/// The messages and selectors of the error declarations of a Solidity source,
/// given the declarations that the error pattern found in it, in order.
pub fn parse_sol_declarations(file_contents: &str, found: &Vec<String>) -> (r: (
    StrMap<SolidityMessageAndArgs>,
    StrMap<Temp>,
))
    requires
        forall|j: int| 0 <= j < found@.len() ==> usable_declaration(#[trigger] found@[j]@),
    ensures
        r.0@ == error_messages(
            lines(file_contents@),
            declarations(found@.map_values(|f: String| f@)),
            lines(file_contents@).len(),
        ),
        r.1@ == declaration_selectors(found@.map_values(|f: String| f@)),
{
    let ghost texts = found@.map_values(|f: String| f@);
    let mut identifier_to_selector: StrMap<Temp> = StrMap::new();
    let mut line_indicators: StrMap<String> = StrMap::new();
    let mut j: usize = 0;
    assert(texts.take(0) =~= Seq::<Seq<char>>::empty());
    while j < found.len()
        invariant
            j <= found@.len(),
            texts == found@.map_values(|f: String| f@),
            forall|q: int| 0 <= q < found@.len() ==> usable_declaration(#[trigger] found@[q]@),
            identifier_to_selector@ == declaration_selectors(texts.take(j as int)),
            line_indicators@ == declarations(texts.take(j as int)),
            forall|k: Seq<char>| #[trigger]
                line_indicators@.contains_key(k) ==> line_indicators@[k].contains('('),
        decreases found.len() - j,
    {
        let cleaned = cleanup_chars(&chars_of(found[j].as_str()));
        let ident = before_char_chars(&cleaned, '(');
        let ident_text = string_of(&ident);
        assert(usable_declaration(found@[j as int]@));
        let selector = find_selector(ident_text.as_str());
        identifier_to_selector.insert(
            string_of(&ident),
            Temp { cleaned_error: string_of(&cleaned), identifier: selector },
        );
        line_indicators.insert(ident_text, string_of(&cleaned));
        assert(texts.take(j + 1).drop_last() =~= texts.take(j as int));
        assert(texts.take(j + 1).last() == found@[j as int]@);
        j = j + 1;
    }
    assert(texts.take(found@.len() as int) =~= texts);
    let text = chars_of(file_contents);
    let ls = lines_chars(&text);
    let ghost decls = line_indicators@;
    let mut table: StrMap<SolidityMessageAndArgs> = StrMap::new();
    let mut i: usize = 0;
    while i < ls.len()
        invariant
            i <= ls@.len(),
            views(ls@) == lines(file_contents@),
            decls == line_indicators@,
            decls == declarations(texts),
            forall|k: Seq<char>| #[trigger] decls.contains_key(k) ==> decls[k].contains('('),
            table@ == error_messages(views(ls@), decls, i as nat),
        decreases ls.len() - i,
    {
        assert(views(ls@)[i as int] == ls@[i as int]@);
        let cleaned_line = cleanup_chars(&ls[i]);
        let key = string_of(&before_char_chars(&cleaned_line, '('));
        let ghost record = line_record(views(ls@), decls, i as int);
        match line_indicators.get(&key) {
            Some(cleaned_error) => {
                if i > 0 {
                    assert(views(ls@)[i - 1] == ls@[i - 1]@);
                    if is_comment_chars(&ls[i - 1]) {
                        match message_above_chars(&ls, i) {
                            Some(m) => {
                                let args = parse_args_from_cleaned_error(cleaned_error.clone());
                                table.insert(
                                    key,
                                    SolidityMessageAndArgs { error_message: string_of(&m), args },
                                );
                            },
                            None => {},
                        }
                    } else {
                        let args = parse_args_from_cleaned_error(cleaned_error.clone());
                        table.insert(key, SolidityMessageAndArgs { error_message: String::new(), args });
                    }
                }
            },
            None => {},
        }
        i = i + 1;
    }
    (table, identifier_to_selector)
}


#[verifier::external_type_specification]
#[verifier::external_body]
pub struct ExRegexError(regex::Error);

/// Whether `regex::Regex::new` accepts a pattern.
pub uninterp spec fn regex_compiles(pattern: Seq<char>) -> bool;

/// The texts of the successive non-overlapping leftmost-first matches of a
/// pattern in a text, as `regex::Regex::captures_iter` yields them.
pub uninterp spec fn regex_matches(pattern: Seq<char>, text: Seq<char>) -> Seq<Seq<char>>;

/// `regex::Regex::new` and then `regex::Regex::captures_iter`, keeping the
/// whole match of each capture. The contract claims that success depends on
/// the pattern alone and that the matches depend on the pattern and the text
/// alone. Of the error pattern (`error_pattern`) it claims two facts that the
/// crate's syntax documentation gives: the pattern is valid (`\s`, `\w`,
/// `\(`, `\)`, `[^;]`, `+` and `*` are all in that syntax), and every match
/// holds a `(`, the one that its escaped `\(` matches. It does not state the
/// regular-expression semantics beyond that.
#[verifier::external_body]
fn find_all_matches(pattern: &str, text: &str) -> (r: Result<Vec<String>, regex::Error>)
    ensures
        r is Ok <==> regex_compiles(pattern@),
        r matches Ok(v) ==> v@.map_values(|f: String| f@) == regex_matches(pattern@, text@),
        pattern@ == error_pattern() ==> r is Ok,
        pattern@ == error_pattern() ==> (r matches Ok(v) ==> forall|j: int|
            0 <= j < v@.len() ==> (#[trigger] v@[j])@.contains('(')),
{
    let re = regex::Regex::new(pattern)?;
    Ok(re.captures_iter(text).filter_map(|cap| cap.get(0)).map(|m| m.as_str().to_string()).collect())
}

/// The pattern of an error declaration: `error`, white space, a name, optional
/// white space, `(`, anything but `;`, then `);`.
pub open spec fn error_pattern() -> Seq<char> {
    "error\\s+\\w+\\s*\\([^;]*\\);"@
}

/// Why a Solidity source could not be scanned.
#[derive(Debug, Clone, Copy, PartialEq, Eq, Structural)]
pub enum SolParseError {
    /// A found declaration has no parameter list once cleaned.
    NoParameterList,
    /// A found declaration names an error of fewer than four bytes, too short
    /// to take a selector of.
    ShortIdentifier,
}

/// The first problem among found declarations, in order.
pub open spec fn first_problem(found: Seq<Seq<char>>) -> Option<SolParseError>
    decreases found.len(),
{
    if found.len() == 0 {
        None
    } else if !cleaned_text(found[0]).contains('(') {
        Some(SolParseError::NoParameterList)
    } else if encode_utf8(identifier_of(cleaned_text(found[0]))).len() < 4 {
        Some(SolParseError::ShortIdentifier)
    } else {
        first_problem(found.drop_first())
    }
}

proof fn lemma_first_problem(found: Seq<Seq<char>>)
    ensures
        first_problem(found) is None <==> forall|j: int|
            0 <= j < found.len() ==> usable_declaration(#[trigger] found[j]),
    decreases found.len(),
{
    if found.len() > 0 {
        lemma_first_problem(found.drop_first());
        if first_problem(found) is None {
            assert forall|j: int| 0 <= j < found.len() implies usable_declaration(#[trigger] found[j]) by {
                if j > 0 {
                    assert(found[j] == found.drop_first()[j - 1]);
                }
            }
        }
        if forall|j: int| 0 <= j < found.len() ==> usable_declaration(#[trigger] found[j]) {
            assert(usable_declaration(found[0]));
            assert forall|j: int| 0 <= j < found.drop_first().len() implies usable_declaration(#[trigger] found.drop_first()[j]) by {
                assert(found.drop_first()[j] == found[j + 1]);
            }
        }
    }
}

fn check_declarations(found: &Vec<String>) -> (r: Option<SolParseError>)
    ensures
        r == first_problem(found@.map_values(|f: String| f@)),
{
    let ghost texts = found@.map_values(|f: String| f@);
    let mut j: usize = 0;
    assert(texts.skip(0) =~= texts);
    while j < found.len()
        invariant
            j <= found@.len(),
            texts == found@.map_values(|f: String| f@),
            first_problem(texts) == first_problem(texts.skip(j as int)),
        decreases found.len() - j,
    {
        let cleaned = cleanup_chars(&chars_of(found[j].as_str()));
        assert(texts.skip(j as int)[0] == found@[j as int]@);
        if !contains_char(&cleaned, '(') {
            return Some(SolParseError::NoParameterList);
        }
        let ident = string_of(&before_char_chars(&cleaned, '('));
        if ident.as_str().as_bytes().len() < 4 {
            return Some(SolParseError::ShortIdentifier);
        }
        assert(texts.skip(j as int).drop_first() =~= texts.skip(j + 1));
        j = j + 1;
    }
    assert(texts.skip(found@.len() as int) =~= Seq::<Seq<char>>::empty());
    None
}

/// Scans a Solidity source: finds its error declarations with the error
/// pattern, then gives, by error name, the message written above each
/// declaration with its parameters, and the declaration with the selector of
/// its name (see `parse_sol_declarations`). A declaration the scanner cannot
/// take (see `first_problem`) makes the scan fail; the only such declaration
/// is one whose name is shorter than four bytes, since every match holds a
/// `(` and cleaning keeps it.
pub fn parse_sol_file(file_contents: &str) -> (r: Result<
    (StrMap<SolidityMessageAndArgs>, StrMap<Temp>),
    SolParseError,
>)
    ensures
        regex_compiles(error_pattern()),
        ({
            let found = regex_matches(error_pattern(), file_contents@);
            match r {
                Ok((messages, selectors)) => {
                    &&& first_problem(found) is None
                    &&& messages@ == error_messages(
                        lines(file_contents@),
                        declarations(found),
                        lines(file_contents@).len(),
                    )
                    &&& selectors@ == declaration_selectors(found)
                },
                Err(e) => {
                    &&& first_problem(found) == Some(e)
                    &&& e == SolParseError::ShortIdentifier
                },
            }
        }),
{
    let pattern = "error\\s+\\w+\\s*\\([^;]*\\);";
    match find_all_matches(pattern, file_contents) {
        Err(_) => {
            assert(false);
            Err(SolParseError::ShortIdentifier)
        },
        Ok(found) => {
            proof {
                let texts = found@.map_values(|f: String| f@);
                assert forall|j: int| 0 <= j < texts.len() implies cleaned_text(#[trigger] texts[j]).contains('(') by {
                    assert(texts[j] == found@[j]@);
                    lemma_cleaned_keeps_open_paren(texts[j]);
                }
                lemma_first_problem_without_missing_list(texts);
            }
            match check_declarations(&found) {
                Some(e) => Err(e),
                None => {
                    proof {
                        lemma_first_problem(found@.map_values(|f: String| f@));
                        assert forall|j: int| 0 <= j < found@.len() implies usable_declaration(
                            #[trigger] found@[j]@,
                        ) by {
                            assert(found@.map_values(|f: String| f@)[j] == found@[j]@);
                        }
                    }
                    Ok(parse_sol_declarations(file_contents, &found))
                },
            }
        },
    }
}


/// Cleaning keeps a declaration's `(`.
pub proof fn lemma_cleaned_keeps_open_paren(input: Seq<char>)
    requires
        input.contains('('),
    ensures
        cleaned_text(input).contains('('),
{
    let c = '(';
    let p1 = seq![',', ' '];
    let p2 = seq!['(', ' '];
    let p3 = seq![' ', ')'];
    let r1 = seq![','];
    let r2 = seq!['('];
    let r3 = seq![')'];
    assert(!p1.contains(c)) by {
        assert forall|i: int| 0 <= i < p1.len() implies p1[i] != c by {}
    }
    assert(r2[0] == c);
    assert(!p3.contains(c)) by {
        assert forall|i: int| 0 <= i < p3.len() implies p3[i] != c by {}
    }
    assert(!seq![';'].contains(c)) by {
        assert(seq![';'][0] != c);
    }
    assert(!error_keyword().contains(c)) by {
        assert forall|i: int| 0 <= i < error_keyword().len() implies error_keyword()[i] != c by {}
    }
    lemma_collapse_keeps(input, c);
    let m = collapse_white_space(input);
    lemma_replace_keeps_present(m, p1, r1, c);
    let m = replace_all(m, p1, r1);
    lemma_replace_keeps_present(m, p2, r2, c);
    let m = replace_all(m, p2, r2);
    lemma_replace_keeps_present(m, p3, r3, c);
    let m = replace_all(m, p3, r3);
    lemma_trim_keeps_visible(m, c);
    let t = trim(m);
    lemma_replace_keeps_present(t, seq![';'], seq![], c);
    let t = replace_all(t, seq![';'], seq![]);
    lemma_replace_keeps_present(t, error_keyword(), seq![], c);
}

proof fn lemma_first_problem_without_missing_list(found: Seq<Seq<char>>)
    requires
        forall|j: int| 0 <= j < found.len() ==> cleaned_text(#[trigger] found[j]).contains('('),
    ensures
        first_problem(found) is None || first_problem(found) == Some(SolParseError::ShortIdentifier),
    decreases found.len(),
{
    if found.len() > 0 {
        assert(cleaned_text(found[0]).contains('('));
        let rest = found.drop_first();
        assert forall|j: int| 0 <= j < rest.len() implies cleaned_text(#[trigger] rest[j]).contains('(') by {
            assert(rest[j] == found[j + 1]);
        }
        lemma_first_problem_without_missing_list(rest);
    }
}

/// A cleaned declaration with a parameter list starts with its name and `(`.
pub proof fn law_declaration_starts_with_name(cleaned: Seq<char>)
    requires
        cleaned.contains('('),
    ensures
        starts_with(cleaned, identifier_of(cleaned) + seq!['(']),
    decreases cleaned.len(),
{
    let n = identifier_of(cleaned);
    if cleaned[0] == '(' {
        assert(n =~= Seq::<char>::empty());
        assert(cleaned.take(1) =~= n + seq!['(']);
    } else {
        let t = cleaned.drop_first();
        let k = choose|k: int| 0 <= k < cleaned.len() && cleaned[k] == '(';
        assert(t[k - 1] == '(');
        law_declaration_starts_with_name(t);
        let m = identifier_of(t);
        assert(n == seq![cleaned[0]] + m);
        assert(cleaned.take(n.len() + 1int) =~= seq![cleaned[0]] + t.take(m.len() + 1int));
        assert(n + seq!['('] =~= seq![cleaned[0]] + (m + seq!['(']));
    }
}

/// The selector table keeps, under each name, the last declaration found
/// with that name: its cleaned text, which starts with the name and `(` when
/// it has a parameter list, and the selector of the name.
pub proof fn law_selector_table_keeps_last_declaration(found: Seq<Seq<char>>, k: Seq<char>)
    requires
        declaration_selectors(found).contains_key(k),
    ensures
        exists|j: int|
            0 <= j < found.len() && identifier_of(cleaned_text(#[trigger] found[j])) == k && (
            forall|q: int|
                j < q < found.len() ==> identifier_of(cleaned_text(#[trigger] found[q])) != k)
                && declaration_selectors(found)[k].cleaned_error == cleaned_text(found[j]),
        declaration_selectors(found)[k].identifier == selector_of(k),
        declaration_selectors(found)[k].cleaned_error.contains('(') ==> starts_with(
            declaration_selectors(found)[k].cleaned_error,
            k + seq!['('],
        ),
    decreases found.len(),
{
    let last = found.len() - 1;
    let c = cleaned_text(found[last]);
    if identifier_of(c) == k {
        assert(found[last] == found.last());
    } else {
        let prev = found.drop_last();
        law_selector_table_keeps_last_declaration(prev, k);
        let j = choose|j: int|
            0 <= j < prev.len() && identifier_of(cleaned_text(#[trigger] prev[j])) == k && (
            forall|q: int|
                j < q < prev.len() ==> identifier_of(cleaned_text(#[trigger] prev[q])) != k)
                && declaration_selectors(prev)[k].cleaned_error == cleaned_text(prev[j]);
        assert(found[j] == prev[j]);
        assert forall|q: int| j < q < found.len() implies identifier_of(
            cleaned_text(#[trigger] found[q]),
        ) != k by {
            if q < last {
                assert(found[q] == prev[q]);
            }
        }
    }
    law_declarations_and_selectors_agree(found, k);
    let e = declaration_selectors(found)[k].cleaned_error;
    if e.contains('(') {
        law_declaration_starts_with_name(e);
    }
}

/// A cleaned declaration never holds a `;`.
pub proof fn law_cleaned_text_has_no_semicolon(input: Seq<char>)
    ensures
        !cleaned_text(input).contains(';'),
{
    let m = collapse_white_space(input);
    let m = replace_all(m, seq![',', ' '], seq![',']);
    let m = replace_all(m, seq!['(', ' '], seq!['(']);
    let m = replace_all(m, seq![' ', ')'], seq![')']);
    let t = replace_all(trim(m), seq![';'], seq![]);
    lemma_delete_char(trim(m), ';');
    lemma_replace_keeps_absent(t, error_keyword(), seq![], ';');
}

/// A line with a `*` anywhere is a comment line.
pub proof fn law_star_lines_are_comments(line: Seq<char>)
    requires
        line.contains('*'),
    ensures
        is_comment(line),
{
    lemma_trim_keeps_visible(line, '*');
}

/// Every message line is a comment line: its trimmed text starts with `//`.
pub proof fn law_message_lines_are_comments(line: Seq<char>)
    requires
        message_of(line) is Some,
    ensures
        is_comment(line),
{
}

/// Every parameter read from a declaration has a type, the same internal
/// type, and a name (possibly empty).
pub proof fn law_parsed_parameters_are_typed(line: Seq<char>, i: int)
    requires
        0 <= i < args_of(line).len(),
    ensures
        args_of(line)[i].kind is Some,
        args_of(line)[i].internal_kind == args_of(line)[i].kind,
        args_of(line)[i].name is Some,
{
}

/// Only declared errors get a message entry.
pub proof fn law_messages_only_for_declared_errors(
    ls: Seq<Seq<char>>,
    decls: Map<Seq<char>, Seq<char>>,
    n: nat,
    k: Seq<char>,
)
    requires
        error_messages(ls, decls, n).contains_key(k),
    ensures
        decls.contains_key(k),
    decreases n,
{
    if n > 0 {
        match line_record(ls, decls, n - 1) {
            Some((key, v)) => {
                if k != key {
                    law_messages_only_for_declared_errors(ls, decls, (n - 1) as nat, k);
                }
            },
            None => {
                law_messages_only_for_declared_errors(ls, decls, (n - 1) as nat, k);
            },
        }
    }
}

/// The message entry of an error is what the last line that records it
/// recorded.
pub proof fn law_last_record_wins(
    ls: Seq<Seq<char>>,
    decls: Map<Seq<char>, Seq<char>>,
    n: nat,
    i: int,
    k: Seq<char>,
    v: MessageAndArgsView,
)
    requires
        0 <= i < n,
        line_record(ls, decls, i) == Some((k, v)),
        forall|j: int| i < j < n ==> !(#[trigger] line_record(ls, decls, j) matches Some((k2, _)) && k2 == k),
    ensures
        error_messages(ls, decls, n).contains_key(k),
        error_messages(ls, decls, n)[k] == v,
    decreases n,
{
    if i < n - 1 {
        law_last_record_wins(ls, decls, (n - 1) as nat, i, k, v);
        let last = line_record(ls, decls, n - 1);
        assert(!(last matches Some((k2, _)) && k2 == k));
    }
}

/// A declaration line right below a message line takes that message.
pub proof fn law_message_right_above(
    ls: Seq<Seq<char>>,
    decls: Map<Seq<char>, Seq<char>>,
    i: int,
    m: Seq<char>,
)
    requires
        1 <= i < ls.len(),
        decls.contains_key(identifier_of(cleaned_text(ls[i]))),
        message_of(ls[i - 1]) == Some(m),
    ensures
        line_record(ls, decls, i) == Some(
            (
                identifier_of(cleaned_text(ls[i])),
                MessageAndArgsView {
                    message: m,
                    args: args_of(decls[identifier_of(cleaned_text(ls[i]))]),
                },
            ),
        ),
{
    law_message_lines_are_comments(ls[i - 1]);
}

/// A declaration line below a line that is not a comment takes an empty
/// message.
pub proof fn law_no_comment_no_message(
    ls: Seq<Seq<char>>,
    decls: Map<Seq<char>, Seq<char>>,
    i: int,
)
    requires
        1 <= i < ls.len(),
        decls.contains_key(identifier_of(cleaned_text(ls[i]))),
        !is_comment(ls[i - 1]),
    ensures
        line_record(ls, decls, i) == Some(
            (
                identifier_of(cleaned_text(ls[i])),
                MessageAndArgsView {
                    message: seq![],
                    args: args_of(decls[identifier_of(cleaned_text(ls[i]))]),
                },
            ),
        ),
{
}

/// The declarations and the selectors cover the same error names; each
/// declaration found under a name declares that name, and the selector kept
/// for it is the selector of the name.
pub proof fn law_declarations_and_selectors_agree(found: Seq<Seq<char>>, k: Seq<char>)
    ensures
        declaration_selectors(found).contains_key(k) <==> declarations(found).contains_key(k),
        declarations(found).contains_key(k) ==> {
            &&& identifier_of(declarations(found)[k]) == k
            &&& declaration_selectors(found)[k].cleaned_error == declarations(found)[k]
            &&& declaration_selectors(found)[k].identifier == selector_of(k)
        },
    decreases found.len(),
{
    if found.len() > 0 {
        law_declarations_and_selectors_agree(found.drop_last(), k);
    }
}

/// A line that is blank once trimmed is no comment line: a comment line's
/// trimmed text starts with `//` or holds a `*`.
pub proof fn law_blank_lines_are_not_comments(line: Seq<char>)
    ensures
        trim(line).len() == 0 ==> !is_comment(line),
        is_comment(line) ==> (trim(line).len() >= 2 && trim(line)[0] == '/' && trim(line)[1]
            == '/') || exists|k: int| 0 <= k < trim(line).len() && trim(line)[k] == '*',
{
    if is_comment(line) && starts_with(trim(line), seq!['/', '/']) {
        assert(trim(line).take(2)[0] == '/');
        assert(trim(line).take(2)[1] == '/');
    }
}

/// A declaration right below a blank line records an empty message, with
/// its parameters.
pub proof fn law_blank_line_above_gives_empty_message(
    ls: Seq<Seq<char>>,
    decls: Map<Seq<char>, Seq<char>>,
    i: int,
)
    requires
        1 <= i < ls.len(),
        decls.contains_key(identifier_of(cleaned_text(ls[i]))),
        trim(ls[i - 1]).len() == 0,
    ensures
        line_record(ls, decls, i) == Some(
            (
                identifier_of(cleaned_text(ls[i])),
                MessageAndArgsView {
                    message: seq![],
                    args: args_of(decls[identifier_of(cleaned_text(ls[i]))]),
                },
            ),
        ),
{
    law_blank_lines_are_not_comments(ls[i - 1]);
}

proof fn lemma_no_char(s: Seq<char>, c: char)
    requires
        forall|i: int| 0 <= i < s.len() ==> s[i] != c,
    ensures
        !s.contains(c),
{
}

/// The message of a marker line is the text after the marker, trimmed: for a
/// line whose trimmed text is `//#message: `, `//#Message: ` or
/// `//# Message: ` followed by a text `m` free of `/`, `*` and `#`, the
/// message read is `m` trimmed, with nothing of the marker left in it.
pub proof fn law_message_after_marker(line: Seq<char>, m: Seq<char>, x: Seq<char>)
    requires
        ({
            let t = trim(line);
            ||| t == seq!['/', '/', '#', 'm', 'e', 's', 's', 'a', 'g', 'e', ':', ' '] + m
            ||| t == seq!['/', '/', '#', 'M', 'e', 's', 's', 'a', 'g', 'e', ':', ' '] + m
            ||| t == seq!['/', '/', '#', ' ', 'M', 'e', 's', 's', 'a', 'g', 'e', ':', ' '] + m
        }),
        !m.contains('/'),
        !m.contains('*'),
        !m.contains('#'),
        message_of(line) == Some(x),
    ensures
        x == trim(m),
{
    let t = trim(line);
    let slashes = seq!['/', '/'];
    let star = seq!['*'];
    let lower = seq!['#', 'm', 'e', 's', 's', 'a', 'g', 'e', ':', ' '];
    let upper = seq!['#', 'M', 'e', 's', 's', 'a', 'g', 'e', ':', ' '];
    let spaced = seq!['#', ' ', 'M', 'e', 's', 's', 'a', 'g', 'e', ':', ' '];
    let nothing = Seq::<char>::empty();
    let marker = if t == slashes + lower + m {
        lower
    } else if t == slashes + upper + m {
        upper
    } else {
        spaced
    };
    assert(t =~= slashes + (marker + m)) by {
        if t == seq!['/', '/', '#', 'm', 'e', 's', 's', 'a', 'g', 'e', ':', ' '] + m {
            assert(seq!['/', '/', '#', 'm', 'e', 's', 's', 'a', 'g', 'e', ':', ' '] =~= slashes + lower);
        } else if t == seq!['/', '/', '#', 'M', 'e', 's', 's', 'a', 'g', 'e', ':', ' '] + m {
            assert(seq!['/', '/', '#', 'M', 'e', 's', 's', 'a', 'g', 'e', ':', ' '] =~= slashes + upper);
        } else {
            assert(seq!['/', '/', '#', ' ', 'M', 'e', 's', 's', 'a', 'g', 'e', ':', ' '] =~= slashes
                + spaced);
        }
    }
    let y = marker + m;
    // The slashes at the front go; the rest holds no `/`.
    lemma_no_char(marker, '/');
    assert(!y.contains('/')) by {
        if y.contains('/') {
            let k = choose|k: int| 0 <= k < y.len() && y[k] == '/';
            if k >= marker.len() {
                assert(m[k - marker.len()] == '/');
            }
        }
    }
    lemma_replace_front(y, slashes, nothing);
    lemma_replace_absent(y, slashes, nothing);
    assert(nothing + y =~= y);
    let s1 = replace_all(t, slashes, nothing);
    assert(s1 == y);
    // No `*` anywhere.
    lemma_no_char(marker, '*');
    assert(!y.contains('*')) by {
        if y.contains('*') {
            let k = choose|k: int| 0 <= k < y.len() && y[k] == '*';
            if k >= marker.len() {
                assert(m[k - marker.len()] == '*');
            }
        }
    }
    lemma_replace_absent(y, star, nothing);
    // Each marker goes only where it stands, at the front.
    lemma_replace_absent(m, lower, nothing);
    lemma_replace_absent(m, upper, nothing);
    lemma_replace_absent(m, spaced, nothing);
    let tail_upper = upper.drop_first() + m;
    let tail_spaced = spaced.drop_first() + m;
    lemma_no_char(upper.drop_first(), '#');
    lemma_no_char(spaced.drop_first(), '#');
    lemma_replace_skips_prefix(upper.drop_first(), m, lower, nothing);
    lemma_replace_skips_prefix(upper.drop_first(), m, upper, nothing);
    lemma_replace_skips_prefix(spaced.drop_first(), m, lower, nothing);
    lemma_replace_skips_prefix(spaced.drop_first(), m, upper, nothing);
    lemma_replace_skips_prefix(spaced.drop_first(), m, spaced, nothing);
    lemma_replace_front(m, lower, nothing);
    lemma_replace_front(m, upper, nothing);
    lemma_replace_front(m, spaced, nothing);
    assert(nothing + m =~= m);
    if marker == lower {
        let s3 = replace_all(y, lower, nothing);
        assert(s3 == m);
        assert(message_body(t) == trim(m));
    } else if marker == upper {
        // `#Message: ` is not `#message: `: the first lower-case marker step
        // keeps the `#` and copies the rest.
        assert(y.take(lower.len() as int)[1] != lower[1]);
        assert(y.drop_first() =~= tail_upper);
        assert(replace_all(y, lower, nothing) == seq![y[0]] + replace_all(tail_upper, lower, nothing));
        assert(seq![y[0]] + tail_upper =~= y);
        assert(replace_all(y, lower, nothing) == y);
        let s5 = replace_all(y, upper, nothing);
        assert(s5 == m);
        assert(message_body(t) == trim(m));
    } else {
        assert(y.take(lower.len() as int)[1] != lower[1]);
        assert(y.take(upper.len() as int)[1] != upper[1]);
        assert(y.drop_first() =~= tail_spaced);
        assert(seq![y[0]] + tail_spaced =~= y);
        assert(replace_all(y, lower, nothing) == y);
        assert(replace_all(y, upper, nothing) == y);
        assert(replace_all(y, spaced, nothing) == m);
        assert(message_body(t) == trim(m));
    }
}

proof fn lemma_lookup_finds(ls: Seq<Seq<char>>, i: int, c: int, d: int)
    requires
        0 <= c < d <= 10,
        d <= i,
        message_of(ls[i - d]) is Some,
        forall|e: int| c < e < d ==> message_of(#[trigger] ls[i - e]) is None,
    ensures
        message_above(ls, i, c) == message_of(ls[i - d]),
    decreases 10 - c,
{
    if c + 1 < d {
        assert(message_of(ls[i - (c + 1)]) is None);
        lemma_lookup_finds(ls, i, c + 1, d);
    }
}

proof fn lemma_lookup_none(ls: Seq<Seq<char>>, i: int, c: int)
    requires
        0 <= c <= 10,
        forall|e: int| c < e <= 10 && e <= i ==> message_of(#[trigger] ls[i - e]) is None,
    ensures
        message_above(ls, i, c) is None,
    decreases 10 - c,
{
    if c < 10 && i - (c + 1) >= 0 {
        assert(message_of(ls[i - (c + 1)]) is None);
        lemma_lookup_none(ls, i, c + 1);
    }
}

proof fn lemma_lookup_source(ls: Seq<Seq<char>>, i: int, c: int, m: Seq<char>)
    requires
        0 <= c <= 10,
        message_above(ls, i, c) == Some(m),
    ensures
        exists|d: int|
            c < d <= 10 && d <= i && message_of(#[trigger] ls[i - d]) == Some(m) && forall|e: int|
                c < e < d ==> message_of(#[trigger] ls[i - e]) is None,
    decreases 10 - c,
{
    if message_of(ls[i - (c + 1)]) is None {
        lemma_lookup_source(ls, i, c + 1, m);
        let d = choose|d: int|
            c + 1 < d <= 10 && d <= i && message_of(#[trigger] ls[i - d]) == Some(m) && forall|e: int|
                c + 1 < e < d ==> message_of(#[trigger] ls[i - e]) is None;
        assert forall|e: int| c < e < d implies message_of(#[trigger] ls[i - e]) is None by {
            if e == c + 1 {
            }
        }
    } else {
        assert(message_of(ls[i - (c + 1)]) == Some(m));
    }
}

/// The message a declaration at line `i` looks for is that of the nearest
/// message line among the ten lines right above it (down to the first line
/// of the file): found exactly when one of them is a message line, and then
/// no nearer line is one.
pub proof fn law_message_lookup_window(ls: Seq<Seq<char>>, i: int)
    requires
        0 <= i < ls.len(),
    ensures
        (forall|d: int| 1 <= d <= 10 && d <= i ==> message_of(#[trigger] ls[i - d]) is None)
            ==> message_above(ls, i, 0) is None,
        forall|d: int|
            1 <= d <= 10 && d <= i && message_of(ls[i - d]) is Some && (forall|e: int|
                1 <= e < d ==> message_of(#[trigger] ls[i - e]) is None) ==> message_above(ls, i, 0)
                == message_of(#[trigger] ls[i - d]),
        message_above(ls, i, 0) is Some ==> exists|d: int|
            1 <= d <= 10 && d <= i && message_above(ls, i, 0) == message_of(#[trigger] ls[i - d]),
{
    if forall|d: int| 1 <= d <= 10 && d <= i ==> message_of(#[trigger] ls[i - d]) is None {
        lemma_lookup_none(ls, i, 0);
    }
    assert forall|d: int|
        1 <= d <= 10 && d <= i && message_of(ls[i - d]) is Some && (forall|e: int|
            1 <= e < d ==> message_of(#[trigger] ls[i - e]) is None) implies message_above(ls, i, 0)
        == message_of(#[trigger] ls[i - d]) by {
        lemma_lookup_finds(ls, i, 0, d);
    }
    if message_above(ls, i, 0) is Some {
        let m = message_above(ls, i, 0).unwrap();
        lemma_lookup_source(ls, i, 0, m);
    }
}

} // verus!
