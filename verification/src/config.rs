//! The project configuration: which build framework's artifacts to read,
//! where the sources are, where the output goes, and which parser files to
//! generate; and the rules that pick the files to scan.

use vstd::prelude::*;
use vstd::utf8::is_ascii_chars;

use crate::text::{
    ascii_lowercase, chars_of, matches_at, replace_all, replace_chars, string_of, lowercase, to_lowercase,
};

verus! {

/// The build framework whose artifacts hold the ABIs.
#[derive(Debug, Clone, Copy, PartialEq, Eq, Structural)]
pub enum Framework {
    Foundry,
    Hardhat,
}

/// The kinds of error-parsing helper that can be generated.
#[derive(Debug, Clone, Copy, PartialEq, Eq, Structural)]
pub enum Modes {
    EthersV5,
    Viem,
}

/// The configuration as written in `jesper-config.json`.
pub struct JasperConfig {
    pub output_folder: String,
    pub typescript: bool,
    pub framework: Framework,
    pub contracts_path: String,
    pub excluded_files: Vec<String>,
    pub extra_included_files: Vec<String>,
    pub modes: Vec<Modes>,
}

/// The configuration with the files to scan resolved.
pub struct JasperConfigOutput {
    pub output_folder: String,
    pub typescript: bool,
    pub all_abi_files: Vec<String>,
    pub all_solidity_files: Vec<String>,
    pub framework: Framework,
    pub modes: Vec<Modes>,
}

/// Why a configuration value was refused.
#[derive(Debug, Clone, Copy, PartialEq, Eq, Structural)]
pub enum ConfigError {
    /// The framework is neither `foundry` nor `hardhat`, in any case.
    InvalidFramework,
}

/// `foundry`.
pub open spec fn foundry_name() -> Seq<char> {
    seq!['f', 'o', 'u', 'n', 'd', 'r', 'y']
}

/// `hardhat`.
pub open spec fn hardhat_name() -> Seq<char> {
    seq!['h', 'a', 'r', 'd', 'h', 'a', 't']
}

/// The name a framework is written with.
pub open spec fn framework_text(framework: Framework) -> Seq<char> {
    match framework {
        Framework::Foundry => foundry_name(),
        Framework::Hardhat => hardhat_name(),
    }
}

/// The framework a configured name denotes: the name is compared in lower
/// case.
pub open spec fn framework_of(name: Seq<char>) -> Option<Framework> {
    let lower = lowercase(name);
    if lower == foundry_name() {
        Some(Framework::Foundry)
    } else if lower == hardhat_name() {
        Some(Framework::Hardhat)
    } else {
        None
    }
}

/// The framework an ASCII name denotes, compared in ASCII lower case.
pub open spec fn ascii_framework_of(name: Seq<char>) -> Option<Framework> {
    let lower = ascii_lowercase(name);
    if lower == foundry_name() {
        Some(Framework::Foundry)
    } else if lower == hardhat_name() {
        Some(Framework::Hardhat)
    } else {
        None
    }
}

/// Reads a configured framework name, in any case.
pub fn parse_framework(name: &str) -> (r: Result<Framework, ConfigError>)
    ensures
        match r {
            Ok(f) => framework_of(name@) == Some(f),
            Err(e) => framework_of(name@) is None && e == ConfigError::InvalidFramework,
        },
        is_ascii_chars(name@) ==> match r {
            Ok(f) => ascii_framework_of(name@) == Some(f),
            Err(_) => ascii_framework_of(name@) is None,
        },
{
    let lower = to_lowercase(name);
    let foundry = string_of(&vec!['f', 'o', 'u', 'n', 'd', 'r', 'y']);
    let hardhat = string_of(&vec!['h', 'a', 'r', 'd', 'h', 'a', 't']);
    assert(foundry@ =~= foundry_name());
    assert(hardhat@ =~= hardhat_name());
    if lower == foundry {
        Ok(Framework::Foundry)
    } else if lower == hardhat {
        Ok(Framework::Hardhat)
    } else {
        Err(ConfigError::InvalidFramework)
    }
}

/// The name a framework is written with in the configuration.
pub fn framework_name(framework: Framework) -> (r: String)
    ensures
        r@ == framework_text(framework),
{
    match framework {
        Framework::Foundry => {
            let v = vec!['f', 'o', 'u', 'n', 'd', 'r', 'y'];
            assert(v@ =~= foundry_name());
            string_of(&v)
        },
        Framework::Hardhat => {
            let v = vec!['h', 'a', 'r', 'd', 'h', 'a', 't'];
            assert(v@ =~= hardhat_name());
            string_of(&v)
        },
    }
}

/// The name a framework is written with reads back as that framework.
pub proof fn law_framework_name_reads_back(framework: Framework)
    ensures
        framework_of(framework_text(framework)) == Some(framework),
        is_ascii_chars(framework_text(framework)),
        ascii_framework_of(framework_text(framework)) == Some(framework),
{
    let t = framework_text(framework);
    assert(ascii_lowercase(t) =~= t);
    assert(hardhat_name() != foundry_name()) by {
        assert(hardhat_name()[0] != foundry_name()[0]);
    }
}

/// The folder in which a framework leaves its build artifacts.
pub open spec fn artifacts_folder(framework: Framework) -> Seq<char> {
    match framework {
        Framework::Foundry => seq!['.', '/', 'o', 'u', 't', '/'],
        Framework::Hardhat => seq!['.', '/', 'a', 'r', 't', 'i', 'f', 'a', 'c', 't', 's', '/'],
    }
}

/// The folder to search for ABI files: `./out/` for Foundry, `./artifacts/`
/// for Hardhat.
pub fn abi_folder(framework: Framework) -> (r: String)
    ensures
        r@ == artifacts_folder(framework),
        framework == Framework::Foundry ==> r@ == seq!['.', '/', 'o', 'u', 't', '/'],
        framework == Framework::Hardhat ==> r@ == seq![
            '.',
            '/',
            'a',
            'r',
            't',
            'i',
            'f',
            'a',
            'c',
            't',
            's',
            '/',
        ],
{
    let v = match framework {
        Framework::Foundry => vec!['.', '/', 'o', 'u', 't', '/'],
        Framework::Hardhat => vec!['.', '/', 'a', 'r', 't', 'i', 'f', 'a', 'c', 't', 's', '/'],
    };
    assert(v@ =~= artifacts_folder(framework));
    string_of(&v)
}

/// `str::ends_with`.
pub open spec fn ends_with(s: Seq<char>, suffix: Seq<char>) -> bool {
    suffix.len() <= s.len() && s.skip(s.len() - suffix.len()) == suffix
}

fn ends_with_chars(s: &Vec<char>, suffix: &Vec<char>) -> (b: bool)
    ensures
        b == ends_with(s@, suffix@),
{
    if suffix.len() > s.len() {
        return false;
    }
    let b = matches_at(s, s.len() - suffix.len(), suffix);
    assert(s@.subrange(s@.len() - suffix@.len(), s@.len() as int) =~= s@.skip(
        s@.len() - suffix@.len(),
    ));
    b
}

/// `.json`.
pub open spec fn json_suffix() -> Seq<char> {
    seq!['.', 'j', 's', 'o', 'n']
}

/// `.sol`.
pub open spec fn sol_suffix() -> Seq<char> {
    seq!['.', 's', 'o', 'l']
}

/// `.t.sol`, the suffix of Foundry test contracts.
pub open spec fn test_sol_suffix() -> Seq<char> {
    seq!['.', 't', '.', 's', 'o', 'l']
}

/// An ABI file: its path ends in `.json`.
pub open spec fn is_abi_path(path: Seq<char>) -> bool {
    ends_with(path, json_suffix())
}

/// A Solidity source to scan: its path ends in `.sol` but not in `.t.sol`.
pub open spec fn is_source_path(path: Seq<char>) -> bool {
    ends_with(path, sol_suffix()) && !ends_with(path, test_sol_suffix())
}

/// The paths that satisfy `keep`, in order.
pub open spec fn kept_paths(paths: Seq<Seq<char>>, keep: spec_fn(Seq<char>) -> bool) -> Seq<
    Seq<char>,
>
    decreases paths.len(),
{
    if paths.len() == 0 {
        seq![]
    } else if keep(paths.last()) {
        kept_paths(paths.drop_last(), keep).push(paths.last())
    } else {
        kept_paths(paths.drop_last(), keep)
    }
}

/// Every path kept satisfies the rule it was kept by, and none is made up:
/// each is one of the paths given.
pub proof fn law_kept_paths_satisfy(
    paths: Seq<Seq<char>>,
    keep: spec_fn(Seq<char>) -> bool,
    i: int,
)
    requires
        0 <= i < kept_paths(paths, keep).len(),
    ensures
        keep(kept_paths(paths, keep)[i]),
        paths.contains(kept_paths(paths, keep)[i]),
    decreases paths.len(),
{
    if paths.len() > 0 {
        let prev = kept_paths(paths.drop_last(), keep);
        if keep(paths.last()) && i == prev.len() {
            assert(paths[paths.len() - 1] == paths.last());
        } else {
            law_kept_paths_satisfy(paths.drop_last(), keep, i);
            let p = kept_paths(paths, keep)[i];
            let k = choose|k: int| 0 <= k < paths.drop_last().len() && paths.drop_last()[k] == p;
            assert(paths[k] == p);
        }
    }
}

/// The texts of a list of strings.
pub open spec fn path_texts(v: Seq<String>) -> Seq<Seq<char>> {
    v.map_values(|s: String| s@)
}

/// Of the files found under the artifacts folder, the ABI files, in order.
pub fn select_abi_files(paths: &Vec<String>) -> (r: Vec<String>)
    ensures
        path_texts(r@) == kept_paths(path_texts(paths@), |p: Seq<char>| is_abi_path(p)),
{
    let suffix = vec!['.', 'j', 's', 'o', 'n'];
    assert(suffix@ =~= json_suffix());
    let ghost all = path_texts(paths@);
    let mut r: Vec<String> = Vec::new();
    let mut k: usize = 0;
    assert(all.take(0) =~= Seq::<Seq<char>>::empty());
    while k < paths.len()
        invariant
            k <= paths@.len(),
            suffix@ == json_suffix(),
            all == path_texts(paths@),
            path_texts(r@) == kept_paths(all.take(k as int), |p: Seq<char>| is_abi_path(p)),
        decreases paths.len() - k,
    {
        let p = chars_of(paths[k].as_str());
        assert(all.take(k + 1).drop_last() =~= all.take(k as int));
        assert(all.take(k + 1).last() == paths@[k as int]@);
        if ends_with_chars(&p, &suffix) {
            let ghost before = path_texts(r@);
            r.push(paths[k].clone());
            assert(path_texts(r@) =~= before.push(paths@[k as int]@));
        }
        k = k + 1;
    }
    assert(all.take(paths@.len() as int) =~= all);
    r
}

/// Of the files found under the contracts folder, the sources to scan, in
/// order, followed by the extra files the configuration names.
pub fn select_solidity_files(paths: &Vec<String>, extra: &Vec<String>) -> (r: Vec<String>)
    ensures
        path_texts(r@) == kept_paths(path_texts(paths@), |p: Seq<char>| is_source_path(p))
            + path_texts(extra@),
{
    let sol = vec!['.', 's', 'o', 'l'];
    let test_sol = vec!['.', 't', '.', 's', 'o', 'l'];
    assert(sol@ =~= sol_suffix());
    assert(test_sol@ =~= test_sol_suffix());
    let ghost all = path_texts(paths@);
    let mut r: Vec<String> = Vec::new();
    let mut k: usize = 0;
    assert(all.take(0) =~= Seq::<Seq<char>>::empty());
    while k < paths.len()
        invariant
            k <= paths@.len(),
            sol@ == sol_suffix(),
            test_sol@ == test_sol_suffix(),
            all == path_texts(paths@),
            path_texts(r@) == kept_paths(all.take(k as int), |p: Seq<char>| is_source_path(p)),
        decreases paths.len() - k,
    {
        let p = chars_of(paths[k].as_str());
        assert(all.take(k + 1).drop_last() =~= all.take(k as int));
        assert(all.take(k + 1).last() == paths@[k as int]@);
        if ends_with_chars(&p, &sol) && !ends_with_chars(&p, &test_sol) {
            let ghost before = path_texts(r@);
            r.push(paths[k].clone());
            assert(path_texts(r@) =~= before.push(paths@[k as int]@));
        }
        k = k + 1;
    }
    assert(all.take(paths@.len() as int) =~= all);
    let ghost selected = path_texts(r@);
    let mut q: usize = 0;
    while q < extra.len()
        invariant
            q <= extra@.len(),
            path_texts(r@) == selected + path_texts(extra@).take(q as int),
        decreases extra.len() - q,
    {
        let ghost before = path_texts(r@);
        r.push(extra[q].clone());
        assert(path_texts(r@) =~= before.push(extra@[q as int]@));
        q = q + 1;
        assert(path_texts(r@) =~= selected + path_texts(extra@).take(q as int));
    }
    assert(path_texts(extra@).take(extra@.len() as int) =~= path_texts(extra@));
    r
}

/// The configuration written when there is none: output to
/// `./jasper-bindings`, TypeScript on, Foundry, sources in `./src`,
/// `./contracts/Migrations.sol` excluded, no extra files, the Ethers v5 helper.
pub fn default_config() -> (r: JasperConfig)
    ensures
        r.output_folder@ == seq!['.', '/', 'j', 'a', 's', 'p', 'e', 'r', '-', 'b', 'i', 'n', 'd', 'i', 'n', 'g', 's'],
        r.typescript,
        r.framework == Framework::Foundry,
        r.contracts_path@ == seq!['.', '/', 's', 'r', 'c'],
        path_texts(r.excluded_files@) == seq![
            seq!['.', '/', 'c', 'o', 'n', 't', 'r', 'a', 'c', 't', 's', '/', 'M', 'i', 'g', 'r', 'a', 't', 'i', 'o', 'n', 's', '.', 's', 'o', 'l'],
        ],
        r.extra_included_files@.len() == 0,
        r.modes@ == seq![Modes::EthersV5],
{
    let output_folder = vec!['.', '/', 'j', 'a', 's', 'p', 'e', 'r', '-', 'b', 'i', 'n', 'd', 'i', 'n', 'g', 's'];
    let contracts_path = vec!['.', '/', 's', 'r', 'c'];
    let migrations = vec!['.', '/', 'c', 'o', 'n', 't', 'r', 'a', 'c', 't', 's', '/', 'M', 'i', 'g', 'r', 'a', 't', 'i', 'o', 'n', 's', '.', 's', 'o', 'l'];
    let output_folder = string_of(&output_folder);
    let contracts_path = string_of(&contracts_path);
    let migrations = string_of(&migrations);
    let ghost m = migrations@;
    let mut excluded_files: Vec<String> = Vec::new();
    excluded_files.push(migrations);
    assert(path_texts(excluded_files@) =~= seq![m]);
    let mut modes: Vec<Modes> = Vec::new();
    modes.push(Modes::EthersV5);
    assert(modes@ =~= seq![Modes::EthersV5]);
    JasperConfig {
        output_folder,
        typescript: true,
        framework: Framework::Foundry,
        contracts_path,
        excluded_files,
        extra_included_files: Vec::new(),
        modes,
    }
}

/// The file name of a mode's helper: `jesperParseError` followed by the
/// mode's name and `.ts`.
pub open spec fn mode_file_text(mode: Modes) -> Seq<char> {
    match mode {
        Modes::EthersV5 => seq!['j', 'e', 's', 'p', 'e', 'r', 'P', 'a', 'r', 's', 'e', 'E', 'r', 'r', 'o', 'r', 'E', 't', 'h', 'e', 'r', 's', 'V', '5', '.', 't', 's'],
        Modes::Viem => seq!['j', 'e', 's', 'p', 'e', 'r', 'P', 'a', 'r', 's', 'e', 'E', 'r', 'r', 'o', 'r', 'V', 'i', 'e', 'm', '.', 't', 's'],
    }
}

/// `jesper-bindings.ts`, the file that holds the error table.
pub open spec fn bindings_file_text() -> Seq<char> {
    seq!['j', 'e', 's', 'p', 'e', 'r', '-', 'b', 'i', 'n', 'd', 'i', 'n', 'g', 's', '.', 't', 's']
}

/// Where a file of the output folder goes: the folder, `/`, the file name,
/// with every `//` then made `/`.
pub open spec fn file_in_folder(output_folder: Seq<char>, name: Seq<char>) -> Seq<char> {
    replace_all(output_folder + seq!['/'] + name, seq!['/', '/'], seq!['/'])
}

/// Where a mode's helper goes (see `file_in_folder`).
pub open spec fn mode_file_location(output_folder: Seq<char>, mode: Modes) -> Seq<char> {
    file_in_folder(output_folder, mode_file_text(mode))
}

/// The file name of a mode's helper.
pub fn mode_file_name(mode: Modes) -> (r: Vec<char>)
    ensures
        r@ == mode_file_text(mode),
{
    let v = match mode {
        Modes::EthersV5 => vec!['j', 'e', 's', 'p', 'e', 'r', 'P', 'a', 'r', 's', 'e', 'E', 'r', 'r', 'o', 'r', 'E', 't', 'h', 'e', 'r', 's', 'V', '5', '.', 't', 's'],
        Modes::Viem => vec!['j', 'e', 's', 'p', 'e', 'r', 'P', 'a', 'r', 's', 'e', 'E', 'r', 'r', 'o', 'r', 'V', 'i', 'e', 'm', '.', 't', 's'],
    };
    assert(v@ =~= mode_file_text(mode));
    v
}

fn path_in_folder(output_folder: &str, name: &Vec<char>) -> (r: String)
    ensures
        r@ == file_in_folder(output_folder@, name@),
{
    let mut path = chars_of(output_folder);
    path.push('/');
    let ghost head = path@;
    let mut k: usize = 0;
    while k < name.len()
        invariant
            k <= name@.len(),
            path@ == head + name@.take(k as int),
        decreases name.len() - k,
    {
        path.push(name[k]);
        k = k + 1;
        assert(path@ =~= head + name@.take(k as int));
    }
    assert(name@.take(name@.len() as int) =~= name@);
    assert(path@ =~= output_folder@ + seq!['/'] + name@);
    let slashes = vec!['/', '/'];
    let slash = vec!['/'];
    assert(slashes@ =~= seq!['/', '/']);
    assert(slash@ =~= seq!['/']);
    string_of(&replace_chars(&path, &slashes, &slash))
}

/// The path of a mode's helper file (see `mode_file_location`).
pub fn mode_file_path(output_folder: &str, mode: Modes) -> (r: String)
    ensures
        r@ == mode_file_location(output_folder@, mode),
{
    path_in_folder(output_folder, &mode_file_name(mode))
}

/// The path of the error table's file in the output folder.
pub fn bindings_file_path(output_folder: &str) -> (r: String)
    ensures
        r@ == file_in_folder(output_folder@, bindings_file_text()),
{
    let name = vec!['j', 'e', 's', 'p', 'e', 'r', '-', 'b', 'i', 'n', 'd', 'i', 'n', 'g', 's', '.', 't', 's'];
    assert(name@ =~= bindings_file_text());
    path_in_folder(output_folder, &name)
}

impl JasperConfigOutput {
    /// The resolved configuration: the configuration's settings with the
    /// files found to scan.
    pub fn from_config(
        config: JasperConfig,
        all_abi_files: Vec<String>,
        all_solidity_files: Vec<String>,
    ) -> (r: JasperConfigOutput)
        ensures
            r.output_folder == config.output_folder,
            r.typescript == config.typescript,
            r.all_abi_files == all_abi_files,
            r.all_solidity_files == all_solidity_files,
            r.framework == config.framework,
            r.modes == config.modes,
    {
        JasperConfigOutput {
            output_folder: config.output_folder,
            typescript: config.typescript,
            all_abi_files,
            all_solidity_files,
            framework: config.framework,
            modes: config.modes,
        }
    }
}

/// A path is a source to scan exactly when its last four characters are
/// `.sol` and its last six are not `.t.sol`.
pub proof fn law_source_path_suffixes(p: Seq<char>)
    ensures
        is_source_path(p) <==> (p.len() >= 4 && p.skip(p.len() - 4) == seq!['.', 's', 'o', 'l'] && !(
        p.len() >= 6 && p.skip(p.len() - 6) == seq!['.', 't', '.', 's', 'o', 'l'])),
{
}

/// A `.sol` path whose sixth character from the end is not `.` (such as
/// `Vault.sol`, which ends in `t.sol` but not in `.t.sol`) is a source to scan.
pub proof fn law_sol_paths_without_test_suffix_are_sources(p: Seq<char>)
    requires
        p.len() >= 6,
        p.skip(p.len() - 4) == seq!['.', 's', 'o', 'l'],
        p[p.len() - 6] != '.',
    ensures
        is_source_path(p),
{
    if ends_with(p, test_sol_suffix()) {
        assert(p.skip(p.len() - 6)[0] == p[p.len() - 6]);
    }
}

/// Every path that satisfies the rule is kept.
pub proof fn law_kept_paths_complete(
    paths: Seq<Seq<char>>,
    keep: spec_fn(Seq<char>) -> bool,
    i: int,
)
    requires
        0 <= i < paths.len(),
        keep(paths[i]),
    ensures
        kept_paths(paths, keep).contains(paths[i]),
    decreases paths.len(),
{
    if i == paths.len() - 1 {
        let k = kept_paths(paths, keep);
        assert(k[k.len() - 1] == paths[i]);
    } else {
        let prev = paths.drop_last();
        assert(prev[i] == paths[i]);
        law_kept_paths_complete(prev, keep, i);
        let kp = kept_paths(prev, keep);
        let q = choose|q: int| 0 <= q < kp.len() && kp[q] == paths[i];
        if keep(paths.last()) {
            assert(kept_paths(paths, keep)[q] == paths[i]);
        }
    }
}

/// A path is an ABI file exactly when its last five characters are `.json`.
pub proof fn law_abi_path_suffix(p: Seq<char>)
    ensures
        is_abi_path(p) <==> (p.len() >= 5 && p.skip(p.len() - 5) == seq!['.', 'j', 's', 'o', 'n']),
{
}

} // verus!
