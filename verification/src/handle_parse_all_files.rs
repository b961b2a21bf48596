//! The ABI side: error entries of compiled ABI files, their canonical
//! signatures and selectors, and the table that pairs each selector with the
//! message found in the Solidity sources.

use vstd::prelude::*;
use vstd::utf8::encode_utf8;

use crate::find_selector::{find_selector, selector_of};
use crate::parse_sol_file::{
    args_of, cleaned_text, error_messages, identifier_of, law_last_record_wins,
    law_message_right_above, line_record, message_of, MessageAndArgsView, SolidityMessageAndArgs,
};
use crate::strmap::{entries_map, StrMap};
use crate::text::{before_char, before_char_chars, chars_of, join, string_of};

verus! {

/// The text of an optional string.
pub open spec fn opt_text(o: Option<String>) -> Option<Seq<char>> {
    match o {
        Some(s) => Some(s@),
        None => None,
    }
}

/// One parameter of an ABI entry (`name`, `type`, `internalType`).
pub struct ABIInput {
    pub name: Option<String>,
    pub _type: Option<String>,
    pub internal_type: Option<String>,
}

/// The texts an `ABIInput` holds.
pub ghost struct AbiInputView {
    pub name: Option<Seq<char>>,
    pub kind: Option<Seq<char>>,
    pub internal_kind: Option<Seq<char>>,
}

impl View for ABIInput {
    type V = AbiInputView;

    open spec fn view(&self) -> AbiInputView {
        AbiInputView {
            name: opt_text(self.name),
            kind: opt_text(self._type),
            internal_kind: opt_text(self.internal_type),
        }
    }
}

/// The texts of a list of ABI parameters.
pub open spec fn inputs_view(v: Seq<ABIInput>) -> Seq<AbiInputView> {
    v.map_values(|a: ABIInput| a@)
}


fn copy_text(o: &Option<String>) -> (r: Option<String>)
    ensures
        opt_text(r) == opt_text(*o),
{
    match o {
        Some(s) => Some(s.clone()),
        None => None,
    }
}

impl ABIInput {
    /// A copy with the same texts.
    pub fn duplicate(&self) -> (r: ABIInput)
        ensures
            r@ == self@,
    {
        ABIInput {
            name: copy_text(&self.name),
            _type: copy_text(&self._type),
            internal_type: copy_text(&self.internal_type),
        }
    }
}

/// A copy of a parameter list with the same texts.
pub fn duplicate_inputs(v: &Vec<ABIInput>) -> (r: Vec<ABIInput>)
    ensures
        inputs_view(r@) == inputs_view(v@),
{
    let mut r: Vec<ABIInput> = Vec::new();
    let mut k: usize = 0;
    while k < v.len()
        invariant
            k <= v@.len(),
            inputs_view(r@) == inputs_view(v@).take(k as int),
        decreases v.len() - k,
    {
        let a = v[k].duplicate();
        let ghost before = inputs_view(r@);
        r.push(a);
        assert(inputs_view(r@) =~= before.push(v@[k as int]@));
        k = k + 1;
        assert(inputs_view(r@) =~= inputs_view(v@).take(k as int));
    }
    assert(inputs_view(v@).take(v@.len() as int) =~= inputs_view(v@));
    r
}

/// One entry of an ABI (`type`, `name`, `inputs`).
pub struct SolidityABI {
    pub _type: String,
    pub name: Option<String>,
    pub inputs: Option<Vec<ABIInput>>,
}

/// The texts a `SolidityABI` holds.
pub ghost struct SolidityAbiView {
    pub kind: Seq<char>,
    pub name: Option<Seq<char>>,
    pub inputs: Option<Seq<AbiInputView>>,
}

impl View for SolidityABI {
    type V = SolidityAbiView;

    open spec fn view(&self) -> SolidityAbiView {
        SolidityAbiView {
            kind: self._type@,
            name: opt_text(self.name),
            inputs: match self.inputs {
                Some(v) => Some(inputs_view(v@)),
                None => None,
            },
        }
    }
}

/// The type of every parameter, which must be given.
pub open spec fn parameter_types(inputs: Seq<AbiInputView>) -> Seq<Seq<char>> {
    inputs.map_values(|a: AbiInputView| a.kind.unwrap())
}

/// The canonical signature of an error: its name, then its parameter types
/// between parentheses, separated by commas (`Name(t1,t2)`).
pub open spec fn signature_of(name: Seq<char>, inputs: Seq<AbiInputView>) -> Seq<char> {
    name + seq!['('] + join(parameter_types(inputs), seq![',']) + seq![')']
}

/// An entry that names itself and lists its parameters, each with a type.
pub open spec fn entry_complete(e: SolidityAbiView) -> bool {
    &&& e.name is Some
    &&& e.inputs is Some
    &&& forall|i: int| 0 <= i < e.inputs.unwrap().len() ==> (#[trigger] e.inputs.unwrap()[i]).kind is Some
}

/// The signature of a complete entry.
pub open spec fn entry_signature(e: SolidityAbiView) -> Seq<char> {
    signature_of(e.name.unwrap(), e.inputs.unwrap())
}

/// The signature of an ABI error entry and its parameters.
pub fn prepare_error_from_abi_input(input: &SolidityABI) -> (r: (String, Vec<ABIInput>))
    requires
        entry_complete(input@),
    ensures
        r.0@ == entry_signature(input@),
        inputs_view(r.1@) == input@.inputs.unwrap(),
{
    let name = match &input.name {
        Some(n) => n,
        None => {
            assert(false);
            return (String::new(), Vec::new());
        },
    };
    let inputs = match &input.inputs {
        Some(v) => v,
        None => {
            assert(false);
            return (String::new(), Vec::new());
        },
    };
    let ghost types = parameter_types(inputs_view(inputs@));
    assert forall|i: int| 0 <= i < inputs@.len() implies (#[trigger] inputs@[i]@).kind is Some by {
        assert(inputs_view(inputs@)[i] == inputs@[i]@);
    }
    let mut error: Vec<char> = chars_of(name.as_str());
    error.push('(');
    let ghost head = error@;
    let mut k: usize = 0;
    while k < inputs.len()
        invariant
            k <= inputs@.len(),
            types == parameter_types(inputs_view(inputs@)),
            forall|i: int| 0 <= i < inputs@.len() ==> (#[trigger] inputs@[i]@).kind is Some,
            error@ == head + join(types.take(k as int), seq![',']),
        decreases inputs.len() - k,
    {
        let t = match &inputs[k]._type {
            Some(t) => t,
            None => {
                assert(inputs@[k as int]@.kind is Some);
                assert(false);
                return (String::new(), Vec::new());
            },
        };
        let tc = chars_of(t.as_str());
        if k > 0 {
            error.push(',');
        }
        let ghost before = error@;
        let mut q: usize = 0;
        while q < tc.len()
            invariant
                q <= tc@.len(),
                error@ == before + tc@.take(q as int),
            decreases tc.len() - q,
        {
            error.push(tc[q]);
            q = q + 1;
            assert(error@ =~= before + tc@.take(q as int));
        }
        assert(tc@.take(tc@.len() as int) =~= tc@);
        assert(types[k as int] == tc@);
        assert(types.take(k + 1).drop_last() =~= types.take(k as int));
        assert(error@ =~= head + join(types.take(k + 1), seq![',']));
        k = k + 1;
    }
    error.push(')');
    assert(types.take(inputs@.len() as int) =~= types);
    assert(error@ =~= signature_of(name@, inputs_view(inputs@)));
    (string_of(&error), duplicate_inputs(inputs))
}

/// `error`, the type of the ABI entries that are errors.
pub open spec fn error_kind() -> Seq<char> {
    seq!['e', 'r', 'r', 'o', 'r']
}

/// An entry the preparation can take: a non-error entry always; an error
/// entry when it is complete and its signature is at least four bytes of
/// UTF-8 (the selector reads four bytes of a hash buffer as long as it).
pub open spec fn entry_usable(e: SolidityAbiView) -> bool {
    e.kind == error_kind() ==> entry_complete(e) && encode_utf8(entry_signature(e)).len() >= 4
}

/// The signatures of the error entries of one ABI, in order.
pub open spec fn file_signatures(entries: Seq<SolidityAbiView>) -> Seq<Seq<char>>
    decreases entries.len(),
{
    if entries.len() == 0 {
        seq![]
    } else {
        let prev = file_signatures(entries.drop_last());
        if entries.last().kind == error_kind() {
            prev.push(entry_signature(entries.last()))
        } else {
            prev
        }
    }
}

/// The signatures of the error entries of several ABIs, file after file.
pub open spec fn all_signatures(files: Seq<Seq<SolidityAbiView>>) -> Seq<Seq<char>>
    decreases files.len(),
{
    if files.len() == 0 {
        seq![]
    } else {
        all_signatures(files.drop_last()) + file_signatures(files.last())
    }
}

/// The views of the entries of each ABI.
pub open spec fn abi_files_view(files: Seq<Vec<SolidityABI>>) -> Seq<Seq<SolidityAbiView>> {
    files.map_values(|f: Vec<SolidityABI>| f@.map_values(|e: SolidityABI| e@))
}

/// The texts of a list of strings.
pub open spec fn texts(v: Seq<String>) -> Seq<Seq<char>> {
    v.map_values(|s: String| s@)
}

fn is_error_kind(kind: &String) -> (b: bool)
    ensures
        b == (kind@ == error_kind()),
{
    let e = string_of(&vec!['e', 'r', 'r', 'o', 'r']);
    assert(e@ =~= error_kind());
    *kind == e
}

/// Whether every entry of every ABI can be prepared (see `entry_usable`).
pub fn abi_files_usable(abi_files: &Vec<Vec<SolidityABI>>) -> (b: bool)
    ensures
        b == forall|f: int, e: int|
            0 <= f < abi_files@.len() && 0 <= e < abi_files@[f]@.len() ==> entry_usable(
                #[trigger] abi_files@[f]@[e]@,
            ),
{
    let mut f: usize = 0;
    while f < abi_files.len()
        invariant
            f <= abi_files@.len(),
            forall|g: int, e: int|
                0 <= g < f && 0 <= e < abi_files@[g]@.len() ==> entry_usable(
                    #[trigger] abi_files@[g]@[e]@,
                ),
        decreases abi_files.len() - f,
    {
        let entries = &abi_files[f];
        let mut e: usize = 0;
        while e < entries.len()
            invariant
                f < abi_files@.len(),
                entries == abi_files@[f as int],
                e <= entries@.len(),
                forall|g: int, q: int|
                    0 <= g < f && 0 <= q < abi_files@[g]@.len() ==> entry_usable(
                        #[trigger] abi_files@[g]@[q]@,
                    ),
                forall|q: int| 0 <= q < e ==> entry_usable(#[trigger] entries@[q]@),
            decreases entries.len() - e,
        {
            let entry = &entries[e];
            if is_error_kind(&entry._type) {
                let complete = match (&entry.name, &entry.inputs) {
                    (Some(_), Some(inputs)) => {
                        let mut all_typed = true;
                        let mut q: usize = 0;
                        while q < inputs.len()
                            invariant
                                q <= inputs@.len(),
                                all_typed == forall|i: int| 0 <= i < q ==> (#[trigger] inputs@[i]@).kind is Some,
                            decreases inputs.len() - q,
                        {
                            let ghost before = all_typed;
                            match &inputs[q]._type {
                                Some(_) => {},
                                None => {
                                    assert((inputs@[q as int]@).kind is None);
                                    all_typed = false;
                                },
                            }
                            q = q + 1;
                            assert(all_typed == forall|i: int| 0 <= i < q ==> (#[trigger] inputs@[i]@).kind is Some) by {
                                if before && all_typed {
                                    assert forall|i: int| 0 <= i < q implies (#[trigger] inputs@[i]@).kind is Some by {
                                        if i < q - 1 {
                                        } else {
                                            assert(inputs@[i]@.kind is Some);
                                        }
                                    }
                                }
                            }
                        }
                        assert(all_typed == entry_complete(entry@)) by {
                            assert forall|i: int| 0 <= i < inputs@.len() implies inputs_view(inputs@)[i] == inputs@[i]@ by {}
                            if !all_typed {
                                let i = choose|i: int| 0 <= i < inputs@.len() && (#[trigger] inputs@[i]@).kind is None;
                                assert(inputs_view(inputs@)[i].kind is None);
                            }
                        }
                        all_typed
                    },
                    _ => false,
                };
                if !complete {
                    return false;
                }
                let (signature, _) = prepare_error_from_abi_input(entry);
                if signature.as_str().as_bytes().len() < 4 {
                    return false;
                }
            }
            e = e + 1;
        }
        f = f + 1;
    }
    true
}

/// The signatures and selectors of the error entries of several ABIs, file
/// after file and in order within each: the selectors come first, the
/// signatures second, at the same positions.
pub fn get_prepared_errors_from_abi_files(abi_files: &Vec<Vec<SolidityABI>>) -> (r: (
    Vec<String>,
    Vec<String>,
))
    requires
        forall|f: int, e: int|
            0 <= f < abi_files@.len() && 0 <= e < abi_files@[f]@.len() ==> entry_usable(
                #[trigger] abi_files@[f]@[e]@,
            ),
    ensures
        texts(r.1@) == all_signatures(abi_files_view(abi_files@)),
        texts(r.0@) == all_signatures(abi_files_view(abi_files@)).map_values(
            |s: Seq<char>| selector_of(s),
        ),
{
    let ghost files = abi_files_view(abi_files@);
    let mut selectors: Vec<String> = Vec::new();
    let mut prepared_errors: Vec<String> = Vec::new();
    let mut f: usize = 0;
    assert(files.take(0) =~= Seq::<Seq<SolidityAbiView>>::empty());
    while f < abi_files.len()
        invariant
            f <= abi_files@.len(),
            files == abi_files_view(abi_files@),
            forall|g: int, e: int|
                0 <= g < abi_files@.len() && 0 <= e < abi_files@[g]@.len() ==> entry_usable(
                    #[trigger] abi_files@[g]@[e]@,
                ),
            texts(prepared_errors@) == all_signatures(files.take(f as int)),
            texts(selectors@) == all_signatures(files.take(f as int)).map_values(
                |s: Seq<char>| selector_of(s),
            ),
        decreases abi_files.len() - f,
    {
        let entries = &abi_files[f];
        let ghost file = files[f as int];
        assert(file == entries@.map_values(|e: SolidityABI| e@));
        let ghost start = texts(prepared_errors@);
        let ghost start_selectors = texts(selectors@);
        let mut e: usize = 0;
        assert(file.take(0) =~= Seq::<SolidityAbiView>::empty());
        assert(start + file_signatures(file.take(0)) =~= start);
        while e < entries.len()
            invariant
                f < abi_files@.len(),
                entries == abi_files@[f as int],
                file == entries@.map_values(|x: SolidityABI| x@),
                e <= entries@.len(),
                forall|q: int| 0 <= q < entries@.len() ==> entry_usable(#[trigger] entries@[q]@),
                texts(prepared_errors@) == start + file_signatures(file.take(e as int)),
                texts(selectors@) == start_selectors + file_signatures(file.take(e as int)).map_values(
                    |s: Seq<char>| selector_of(s),
                ),
            decreases entries.len() - e,
        {
            let entry = &entries[e];
            assert(file.take(e + 1).drop_last() =~= file.take(e as int));
            assert(file.take(e + 1).last() == entry@);
            assert(entry_usable(entries@[e as int]@));
            if is_error_kind(&entry._type) {
                let (signature, _) = prepare_error_from_abi_input(entry);
                let selector = find_selector(signature.as_str());
                let ghost before = texts(prepared_errors@);
                let ghost before_selectors = texts(selectors@);
                prepared_errors.push(signature);
                selectors.push(selector);
                assert(texts(prepared_errors@) =~= before.push(entry_signature(entry@)));
                assert(texts(selectors@) =~= before_selectors.push(selector_of(entry_signature(entry@))));
                assert(texts(prepared_errors@) =~= start + file_signatures(file.take(e + 1)));
                assert(texts(selectors@) =~= start_selectors + file_signatures(file.take(e + 1)).map_values(
                    |s: Seq<char>| selector_of(s),
                ));
            }
            e = e + 1;
        }
        assert(file.take(entries@.len() as int) =~= file);
        assert(files.take(f + 1).drop_last() =~= files.take(f as int));
        assert(files.take(f + 1).last() == file);
        assert(all_signatures(files.take(f + 1)) == all_signatures(files.take(f as int)) + file_signatures(file));
        assert(texts(selectors@) =~= all_signatures(files.take(f + 1)).map_values(
            |s: Seq<char>| selector_of(s),
        ));
        f = f + 1;
    }
    assert(files.take(abi_files@.len() as int) =~= files);
    (selectors, prepared_errors)
}


#[verifier::external_type_specification]
#[verifier::external_body]
pub struct ExJsonError(serde_json::Error);

/// The string a JSON text denotes, when it is a JSON string literal (with
/// white space around it allowed), as `serde_json::from_str::<String>` reads it.
pub uninterp spec fn json_string(text: Seq<char>) -> Option<Seq<char>>;

/// `serde_json::from_str::<String>`. The contract claims that success and the
/// string read depend on the text alone; it does not state JSON's grammar.
#[verifier::external_body]
fn parse_json_string(text: &str) -> (r: Result<String, serde_json::Error>)
    ensures
        match r {
            Ok(s) => json_string(text@) == Some(s@),
            Err(_) => json_string(text@) is None,
        },
{
    serde_json::from_str::<String>(text)
}

/// An error of the output table: its signature and its message and parameters.
pub struct Output {
    pub error_name: String,
    pub solidity_message_and_args: SolidityMessageAndArgs,
}

/// The texts an `Output` holds.
pub ghost struct OutputView {
    pub error_name: Seq<char>,
    pub message: MessageAndArgsView,
}

impl View for Output {
    type V = OutputView;

    open spec fn view(&self) -> OutputView {
        OutputView { error_name: self.error_name@, message: self.solidity_message_and_args@ }
    }
}

/// The message tables of several sources, one after the other, a later
/// table's entry replacing an earlier one's.
pub open spec fn merged_messages(tables: Seq<Map<Seq<char>, MessageAndArgsView>>) -> Map<
    Seq<char>,
    MessageAndArgsView,
>
    decreases tables.len(),
{
    if tables.len() == 0 {
        Map::empty()
    } else {
        merged_messages(tables.drop_last()).union_prefer_right(tables.last())
    }
}

/// The models of a list of message tables.
pub open spec fn tables_view(tables: Seq<StrMap<SolidityMessageAndArgs>>) -> Seq<
    Map<Seq<char>, MessageAndArgsView>,
> {
    tables.map_values(|t: StrMap<SolidityMessageAndArgs>| t@)
}

/// The message that goes with a signature: found under the signature's text
/// before `(`, its message read as a JSON string (empty when it is not one),
/// with its parameters; empty, with no parameters, when none is found.
pub open spec fn output_message(
    messages: Map<Seq<char>, MessageAndArgsView>,
    signature: Seq<char>,
) -> MessageAndArgsView {
    let key = before_char(signature, '(');
    if messages.contains_key(key) {
        MessageAndArgsView {
            message: match json_string(messages[key].message) {
                Some(m) => m,
                None => seq![],
            },
            args: messages[key].args,
        }
    } else {
        MessageAndArgsView { message: seq![], args: seq![] }
    }
}

/// The output table of the first `n` selector and signature pairs, by
/// selector; a later pair replaces an earlier one with the same selector.
pub open spec fn error_output(
    selectors: Seq<Seq<char>>,
    signatures: Seq<Seq<char>>,
    messages: Map<Seq<char>, MessageAndArgsView>,
    n: nat,
) -> Map<Seq<char>, OutputView>
    decreases n,
{
    if n == 0 {
        Map::empty()
    } else {
        error_output(selectors, signatures, messages, (n - 1) as nat).insert(
            selectors[n - 1],
            OutputView {
                error_name: signatures[n - 1],
                message: output_message(messages, signatures[n - 1]),
            },
        )
    }
}

/// The message tables of several sources merged, a later table's entry
/// replacing an earlier one's.
pub fn merge_message_tables(tables: &Vec<StrMap<SolidityMessageAndArgs>>) -> (r: StrMap<
    SolidityMessageAndArgs,
>)
    ensures
        r@ == merged_messages(tables_view(tables@)),
{
    let mut acc: StrMap<SolidityMessageAndArgs> = StrMap::new();
    let mut t: usize = 0;
    assert(tables_view(tables@).take(0) =~= Seq::<Map<Seq<char>, MessageAndArgsView>>::empty());
    while t < tables.len()
        invariant
            t <= tables@.len(),
            acc@ == merged_messages(tables_view(tables@).take(t as int)),
        decreases tables.len() - t,
    {
        let entries = tables[t].entries();
        let ghost start = acc@;
        let mut i: usize = 0;
        assert(entries_map(entries@.take(0)) =~= Map::<Seq<char>, MessageAndArgsView>::empty());
        assert(start.union_prefer_right(Map::<Seq<char>, MessageAndArgsView>::empty()) =~= start);
        while i < entries.len()
            invariant
                i <= entries@.len(),
                acc@ == start.union_prefer_right(entries_map(entries@.take(i as int))),
            decreases entries.len() - i,
        {
            let key = entries[i].0.clone();
            let value = entries[i].1.duplicate();
            assert(entries@.take(i + 1).drop_last() =~= entries@.take(i as int));
            acc.insert(key, value);
            assert(acc@ =~= start.union_prefer_right(entries_map(entries@.take(i + 1))));
            i = i + 1;
        }
        assert(entries@.take(entries@.len() as int) =~= entries@);
        assert(tables_view(tables@).take(t + 1).drop_last() =~= tables_view(tables@).take(t as int));
        assert(tables_view(tables@)[t as int] == tables@[t as int]@);
        t = t + 1;
    }
    assert(tables_view(tables@).take(tables@.len() as int) =~= tables_view(tables@));
    acc
}

fn output_message_of(messages: &StrMap<SolidityMessageAndArgs>, signature: &String) -> (r:
    SolidityMessageAndArgs)
    ensures
        r@ == output_message(messages@, signature@),
{
    let key = string_of(&before_char_chars(&chars_of(signature.as_str()), '('));
    match messages.get(&key) {
        Some(message) => {
            let cleaned = match parse_json_string(message.error_message.as_str()) {
                Ok(m) => m,
                Err(_) => String::new(),
            };
            SolidityMessageAndArgs { error_message: cleaned, args: duplicate_inputs(&message.args) }
        },
        None => {
            let r = SolidityMessageAndArgs { error_message: String::new(), args: Vec::new() };
            assert(r@.args =~= seq![]);
            r
        },
    }
}

/// The output table: each selector, paired with the signature at the same
/// position, gives that signature with its message (see `output_message`).
/// Pairs go as far as the shorter list does.
pub fn collect_error_output(
    selectors: &Vec<String>,
    signatures: &Vec<String>,
    messages: &StrMap<SolidityMessageAndArgs>,
) -> (r: StrMap<Output>)
    ensures
        r@ == error_output(
            texts(selectors@),
            texts(signatures@),
            messages@,
            if selectors@.len() <= signatures@.len() {
                selectors@.len()
            } else {
                signatures@.len()
            },
        ),
{
    let n = if selectors.len() <= signatures.len() {
        selectors.len()
    } else {
        signatures.len()
    };
    let mut output: StrMap<Output> = StrMap::new();
    let mut k: usize = 0;
    while k < n
        invariant
            k <= n <= selectors@.len(),
            n <= signatures@.len(),
            output@ == error_output(texts(selectors@), texts(signatures@), messages@, k as nat),
        decreases n - k,
    {
        let message = output_message_of(messages, &signatures[k]);
        output.insert(
            selectors[k].clone(),
            Output { error_name: signatures[k].clone(), solidity_message_and_args: message },
        );
        k = k + 1;
    }
    output
}

/// The computing part of handling all files: the signatures and selectors
/// of the errors of the ABIs, the message tables of the sources merged in
/// order, and the output table that pairs them (see `collect_error_output`).
/// Gives the merged messages and the output table.
pub fn handle_parse_all_files(
    abi_files: &Vec<Vec<SolidityABI>>,
    message_tables: &Vec<StrMap<SolidityMessageAndArgs>>,
) -> (r: (StrMap<SolidityMessageAndArgs>, StrMap<Output>))
    requires
        forall|f: int, e: int|
            0 <= f < abi_files@.len() && 0 <= e < abi_files@[f]@.len() ==> entry_usable(
                #[trigger] abi_files@[f]@[e]@,
            ),
    ensures
        r.0@ == merged_messages(tables_view(message_tables@)),
        ({
            let signatures = all_signatures(abi_files_view(abi_files@));
            r.1@ == error_output(
                signatures.map_values(|s: Seq<char>| selector_of(s)),
                signatures,
                r.0@,
                signatures.len(),
            )
        }),
{
    let (selectors, prepared_errors) = get_prepared_errors_from_abi_files(abi_files);
    let merged = merge_message_tables(message_tables);
    let output = collect_error_output(&selectors, &prepared_errors, &merged);
    assert(texts(selectors@).len() == selectors@.len());
    assert(texts(prepared_errors@).len() == prepared_errors@.len());
    (merged, output)
}


/// The export of the output table in the TypeScript module, given the
/// table's JSON text. The type declarations that the module starts with are
/// not part of this crate (see README.md).
pub open spec fn errors_module_text(json: Seq<char>) -> Seq<char> {
    "export const errors:JasperObject = "@ + json + seq![';']
}

/// The TypeScript module that exports the output table (see
/// `errors_module_text`).
pub fn errors_module(json: &str) -> (r: String)
    ensures
        r@ == errors_module_text(json@),
{
    let mut text = chars_of("export const errors:JasperObject = ");
    let body = chars_of(json);
    let ghost head = text@;
    let mut k: usize = 0;
    while k < body.len()
        invariant
            k <= body@.len(),
            text@ == head + body@.take(k as int),
        decreases body.len() - k,
    {
        text.push(body[k]);
        k = k + 1;
        assert(text@ =~= head + body@.take(k as int));
    }
    text.push(';');
    assert(body@.take(body@.len() as int) =~= body@);
    assert(text@ =~= errors_module_text(json@));
    string_of(&text)
}

/// The lookup key of an error's signature (its text before `(`) is the
/// error's name, for a name without `(`.
pub proof fn law_signature_key_is_name(name: Seq<char>, inputs: Seq<AbiInputView>)
    requires
        !name.contains('('),
    ensures
        before_char(signature_of(name, inputs), '(') == name,
    decreases name.len(),
{
    let sig = signature_of(name, inputs);
    let rest = seq!['('] + join(parameter_types(inputs), seq![',']) + seq![')'];
    assert(sig =~= name + rest);
    lemma_before_char_of_prefix(name, rest);
}

proof fn lemma_before_char_of_prefix(name: Seq<char>, rest: Seq<char>)
    requires
        !name.contains('('),
        rest.len() > 0,
        rest[0] == '(',
    ensures
        before_char(name + rest, '(') == name,
    decreases name.len(),
{
    if name.len() == 0 {
        assert(name + rest =~= rest);
    } else {
        assert(name[0] != '(');
        let t = name.drop_first();
        assert(!t.contains('(')) by {
            if t.contains('(') {
                let k = choose|k: int| 0 <= k < t.len() && t[k] == '(';
                assert(name[k + 1] == '(');
            }
        }
        lemma_before_char_of_prefix(t, rest);
        assert((name + rest).drop_first() =~= t + rest);
        assert(seq![name[0]] + t =~= name);
    }
}

/// The message that the output gives an ABI error is the one recorded under
/// the error's name: its text read as a JSON string (empty when it is not
/// one) with its parameters, or empty with no parameters when none is
/// recorded.
pub proof fn law_output_message_is_named_message(
    messages: Map<Seq<char>, MessageAndArgsView>,
    name: Seq<char>,
    inputs: Seq<AbiInputView>,
)
    requires
        !name.contains('('),
    ensures
        output_message(messages, signature_of(name, inputs)) == (if messages.contains_key(name) {
            MessageAndArgsView {
                message: match json_string(messages[name].message) {
                    Some(m) => m,
                    None => seq![],
                },
                args: messages[name].args,
            }
        } else {
            MessageAndArgsView { message: seq![], args: seq![] }
        }),
{
    law_signature_key_is_name(name, inputs);
}

/// The output table holds exactly the selectors of the pairs taken, and each
/// selector gives the signature of the last pair with that selector, with
/// that signature's message.
pub proof fn law_output_entry(
    selectors: Seq<Seq<char>>,
    signatures: Seq<Seq<char>>,
    messages: Map<Seq<char>, MessageAndArgsView>,
    n: nat,
    i: int,
)
    requires
        0 <= i < n,
        n <= selectors.len(),
        n <= signatures.len(),
        forall|j: int| i < j < n ==> selectors[j] != selectors[i],
    ensures
        error_output(selectors, signatures, messages, n).contains_key(selectors[i]),
        error_output(selectors, signatures, messages, n)[selectors[i]] == (OutputView {
            error_name: signatures[i],
            message: output_message(messages, signatures[i]),
        }),
    decreases n,
{
    if i < n - 1 {
        law_output_entry(selectors, signatures, messages, (n - 1) as nat, i);
    }
}

/// A key is in the output table only if some pair taken has it as selector.
pub proof fn law_output_keys_are_selectors(
    selectors: Seq<Seq<char>>,
    signatures: Seq<Seq<char>>,
    messages: Map<Seq<char>, MessageAndArgsView>,
    n: nat,
    k: Seq<char>,
)
    requires
        error_output(selectors, signatures, messages, n).contains_key(k),
    ensures
        exists|i: int| 0 <= i < n && selectors[i] == k,
    decreases n,
{
    if n > 0 && selectors[n - 1] != k {
        law_output_keys_are_selectors(selectors, signatures, messages, (n - 1) as nat, k);
        let i = choose|i: int| 0 <= i < n - 1 && selectors[i] == k;
        assert(0 <= i < n && selectors[i] == k);
    }
}

/// After merging, a name has an entry exactly when some table has one.
pub proof fn law_merged_names(tables: Seq<Map<Seq<char>, MessageAndArgsView>>, k: Seq<char>)
    ensures
        merged_messages(tables).contains_key(k) <==> exists|j: int|
            0 <= j < tables.len() && (#[trigger] tables[j]).contains_key(k),
    decreases tables.len(),
{
    if tables.len() > 0 {
        let prev = tables.drop_last();
        law_merged_names(prev, k);
        if merged_messages(tables).contains_key(k) && !tables.last().contains_key(k) {
            let j = choose|j: int| 0 <= j < prev.len() && (#[trigger] prev[j]).contains_key(k);
            assert(tables[j] == prev[j]);
        }
        if exists|j: int| 0 <= j < tables.len() && (#[trigger] tables[j]).contains_key(k) {
            let j = choose|j: int| 0 <= j < tables.len() && (#[trigger] tables[j]).contains_key(k);
            if j < tables.len() - 1 {
                assert(prev[j] == tables[j]);
            }
        }
    }
}

/// After merging, a name's entry is that of the last table that has it.
pub proof fn law_merged_last_table_wins(
    tables: Seq<Map<Seq<char>, MessageAndArgsView>>,
    k: Seq<char>,
    j: int,
)
    requires
        0 <= j < tables.len(),
        tables[j].contains_key(k),
        forall|q: int| j < q < tables.len() ==> !(#[trigger] tables[q]).contains_key(k),
    ensures
        merged_messages(tables).contains_key(k),
        merged_messages(tables)[k] == tables[j][k],
    decreases tables.len(),
{
    let prev = tables.drop_last();
    if j < tables.len() - 1 {
        assert(!tables[tables.len() - 1].contains_key(k));
        assert(prev[j] == tables[j]);
        assert forall|q: int| j < q < prev.len() implies !(#[trigger] prev[q]).contains_key(k) by {
            assert(prev[q] == tables[q]);
        }
        law_merged_last_table_wins(prev, k, j);
    }
}


/// The whole run: a message written right above the last declaration of an
/// error in a source reaches the output entry of that error's selector, read
/// as a JSON string (empty when it is not one), with the declared parameters;
/// provided no later source records the error, and no later ABI error has
/// the same selector.
pub proof fn law_message_reaches_output(
    ls: Seq<Seq<char>>,
    decls: Map<Seq<char>, Seq<char>>,
    i: int,
    m: Seq<char>,
    tables: Seq<Map<Seq<char>, MessageAndArgsView>>,
    j: int,
    selectors: Seq<Seq<char>>,
    signatures: Seq<Seq<char>>,
    n: nat,
    p: int,
    name: Seq<char>,
    inputs: Seq<AbiInputView>,
)
    requires
        1 <= i < ls.len(),
        identifier_of(cleaned_text(ls[i])) == name,
        decls.contains_key(name),
        message_of(ls[i - 1]) == Some(m),
        forall|q: int|
            i < q < ls.len() ==> !(#[trigger] line_record(ls, decls, q) matches Some((k2, _)) && k2
                == name),
        0 <= j < tables.len(),
        tables[j] == error_messages(ls, decls, ls.len()),
        forall|q: int| j < q < tables.len() ==> !(#[trigger] tables[q]).contains_key(name),
        !name.contains('('),
        0 <= p < n,
        n <= selectors.len(),
        n <= signatures.len(),
        signatures[p] == signature_of(name, inputs),
        forall|q: int| p < q < n ==> selectors[q] != selectors[p],
    ensures
        error_output(selectors, signatures, merged_messages(tables), n)[selectors[p]] == (OutputView {
            error_name: signature_of(name, inputs),
            message: MessageAndArgsView {
                message: match json_string(m) {
                    Some(x) => x,
                    None => seq![],
                },
                args: args_of(decls[name]),
            },
        }),
{
    let v = MessageAndArgsView { message: m, args: args_of(decls[name]) };
    law_message_right_above(ls, decls, i, m);
    law_last_record_wins(ls, decls, ls.len(), i, name, v);
    law_merged_last_table_wins(tables, name, j);
    law_output_entry(selectors, signatures, merged_messages(tables), n, p);
    law_output_message_is_named_message(merged_messages(tables), name, inputs);
}

/// An error's signature is its name, `(`, the `type` fields of its inputs
/// joined by `,`, and `)`: the internal types and the input names play no part.
pub proof fn law_signature_uses_type_fields(name: Seq<char>, inputs: Seq<AbiInputView>)
    ensures
        signature_of(name, inputs) == name + seq!['('] + join(
            Seq::new(inputs.len(), |i: int| inputs[i].kind.unwrap()),
            seq![','],
        ) + seq![')'],
{
    assert(parameter_types(inputs) =~= Seq::new(inputs.len(), |i: int| inputs[i].kind.unwrap()));
}

/// Two parameter lists with the same `type` fields, one by one, give the
/// same signature, whatever their names and internal types.
pub proof fn law_signature_ignores_internal_types(
    name: Seq<char>,
    a: Seq<AbiInputView>,
    b: Seq<AbiInputView>,
)
    requires
        a.len() == b.len(),
        forall|i: int| 0 <= i < a.len() ==> (#[trigger] a[i]).kind == b[i].kind,
    ensures
        signature_of(name, a) == signature_of(name, b),
{
    assert(parameter_types(a) =~= parameter_types(b));
}

/// The signatures of an ABI are those of its entries whose type is exactly
/// `error`, in order; any other entry (an event, a function) gives none.
pub proof fn law_file_signatures_are_the_errors(entries: Seq<SolidityAbiView>)
    ensures
        file_signatures(entries) == entries.filter_map(
            |e: SolidityAbiView|
                if e.kind == seq!['e', 'r', 'r', 'o', 'r'] {
                    Some(entry_signature(e))
                } else {
                    None
                },
        ),
    decreases entries.len(),
{
    if entries.len() > 0 {
        law_file_signatures_are_the_errors(entries.drop_last());
        let f = |e: SolidityAbiView|
            if e.kind == seq!['e', 'r', 'r', 'o', 'r'] {
                Some(entry_signature(e))
            } else {
                None
            };
        assert(error_kind() =~= seq!['e', 'r', 'r', 'o', 'r']);
        if entries.last().kind == error_kind() {
            assert(file_signatures(entries) =~= entries.drop_last().filter_map(f) + seq![
                entry_signature(entries.last()),
            ]);
        }
    }
}

/// Every signature collected from several ABIs is that of an entry of one of
/// them whose type is exactly `error`.
pub proof fn law_signatures_come_from_error_entries(files: Seq<Seq<SolidityAbiView>>, i: int)
    requires
        0 <= i < all_signatures(files).len(),
    ensures
        exists|f: int, e: int|
            0 <= f < files.len() && 0 <= e < files[f].len() && files[f][e].kind == seq![
                'e',
                'r',
                'r',
                'o',
                'r',
            ] && all_signatures(files)[i] == entry_signature(#[trigger] files[f][e]),
    decreases files.len(),
{
    let prev = files.drop_last();
    let head = all_signatures(prev);
    assert(error_kind() =~= seq!['e', 'r', 'r', 'o', 'r']);
    if i < head.len() {
        law_signatures_come_from_error_entries(prev, i);
        let (f, e) = choose|f: int, e: int|
            0 <= f < prev.len() && 0 <= e < prev[f].len() && prev[f][e].kind == seq![
                'e',
                'r',
                'r',
                'o',
                'r',
            ] && head[i] == entry_signature(#[trigger] prev[f][e]);
        assert(files[f] == prev[f]);
        assert(all_signatures(files)[i] == head[i]);
    } else {
        let last = files.len() - 1;
        lemma_file_signature_source(files[last], i - head.len());
        let e = choose|e: int|
            0 <= e < files[last].len() && files[last][e].kind == error_kind()
                && file_signatures(files[last])[i - head.len()] == entry_signature(
                #[trigger] files[last][e],
            );
        assert(all_signatures(files)[i] == file_signatures(files[last])[i - head.len()]);
    }
}

proof fn lemma_file_signature_source(entries: Seq<SolidityAbiView>, i: int)
    requires
        0 <= i < file_signatures(entries).len(),
    ensures
        exists|e: int|
            0 <= e < entries.len() && entries[e].kind == error_kind() && file_signatures(
                entries,
            )[i] == entry_signature(#[trigger] entries[e]),
    decreases entries.len(),
{
    let prev = entries.drop_last();
    if i < file_signatures(prev).len() {
        lemma_file_signature_source(prev, i);
        let e = choose|e: int|
            0 <= e < prev.len() && prev[e].kind == error_kind() && file_signatures(prev)[i]
                == entry_signature(#[trigger] prev[e]);
        assert(entries[e] == prev[e]);
    } else {
        assert(entries[entries.len() - 1] == entries.last());
    }
}

} // verus!
