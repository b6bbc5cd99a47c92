//! Compact, bounded summaries of a scan, for a language model that never
//! sees the tree itself: a small digest up front, and functions that look
//! at one folder at a time.
//!
//! Every function here guarantees two things: a row cap (callers pass a
//! limit; nothing returns unbounded rows), and honest truncation (when
//! rows are dropped, the output says so on its own line). Output is
//! compact aligned text rather than JSON.

use vstd::prelude::*;
use vstd::string::StringExecFns;

use crate::fmt::{
    bytes, bytes_text, bytes_wide, count, decimal, grouped, one_decimal, percent, percent_tenths,
    percent_tenths_of, percent_text, push_one_decimal,
};
use crate::text::{
    chars_contain, chars_of, lowercase_of, occurs_in, pad_left, pad_right, push_char, push_pad_left,
    push_pad_right, to_lowercase,
};
use crate::csr::sum_vals;
use crate::export::{
    breakdown_ok, count_dirs, dir_count, files_sum, lemma_rest_sums_fit, lemma_sums_prefix, path_text,
    size_in, sizes_in, sizes_sum, type_columns, type_order, type_size,
};
use crate::sort::{lemma_ranked_perm, rank_positions, ranked, TieBreak};
use crate::tree::{NodeId, Tree};
use crate::volume::{used_of, VolumeInfo};

verus! {

/// Hard ceiling on any single result, in bytes of UTF-8.
pub const MAX_RESULT_CHARS: usize = 6000;

// ---------------------------------------------------------------------
// Text limits
// ---------------------------------------------------------------------

/// Bytes `c` takes in UTF-8.
pub open spec fn utf8_width(c: char) -> nat {
    if (c as u32) < 0x80 {
        1
    } else if (c as u32) < 0x800 {
        2
    } else if (c as u32) < 0x10000 {
        3
    } else {
        4
    }
}

/// How many leading characters of `s` fit in `limit` bytes of UTF-8.
pub open spec fn fit_count(s: Seq<char>, limit: int) -> int
    decreases s.len(),
{
    if s.len() == 0 || utf8_width(s[0]) > limit {
        0
    } else {
        1 + fit_count(s.drop_first(), limit - utf8_width(s[0]))
    }
}

/// Index of the last line break among the first `k` characters of `s`,
/// or -1.
pub open spec fn last_newline(s: Seq<char>, k: int) -> int
    decreases k,
{
    if k <= 0 {
        -1
    } else if s[k - 1] == '\n' {
        k - 1
    } else {
        last_newline(s, k - 1)
    }
}

/// `s` if it fits in [`MAX_RESULT_CHARS`] bytes; otherwise cut at the last
/// line break within that many bytes (or, with none there, after the last
/// whole character that fits) and followed by a note that it was cut.
pub open spec fn clamp_text(s: Seq<char>) -> Seq<char> {
    let k = fit_count(s, MAX_RESULT_CHARS as int);
    if k == s.len() {
        s
    } else {
        let j = last_newline(s, k);
        let cut = if j >= 0 {
            j
        } else {
            k
        };
        s.take(cut) + "\n... output truncated to fit\n"@
    }
}

pub(crate) fn char_width(c: char) -> (w: usize)
    ensures
        w == utf8_width(c),
{
    let v = c as u32;
    if v < 0x80 {
        1
    } else if v < 0x800 {
        2
    } else if v < 0x10000 {
        3
    } else {
        4
    }
}

/// A name of at most `limit / 4` characters fits whole.
pub(crate) proof fn lemma_fit_count_short(s: Seq<char>, limit: int)
    requires
        4 * s.len() <= limit,
    ensures
        fit_count(s, limit) == s.len(),
    decreases s.len(),
{
    if s.len() > 0 {
        lemma_fit_count_short(s.drop_first(), limit - utf8_width(s[0]));
    }
}

pub(crate) proof fn lemma_fit_count_bounds(s: Seq<char>, limit: int)
    ensures
        0 <= fit_count(s, limit) <= s.len(),
    decreases s.len(),
{
    if s.len() > 0 {
        lemma_fit_count_bounds(s.drop_first(), limit - utf8_width(s[0]));
    }
}

/// The last-resort guard: keeps one pathological result from blowing the
/// budget, cutting on a line boundary so no half row is shown.
fn clamp(s: String) -> (r: String)
    ensures
        r@ == clamp_text(s@),
{
    proof {
        reveal_strlit("\n... output truncated to fit\n");
    }
    let cs = chars_of(s.as_str());
    let n = cs.len();
    let mut used: usize = 0;
    let mut k: usize = 0;
    proof {
        assert(cs@.skip(0) =~= cs@);
        lemma_fit_count_bounds(cs@, MAX_RESULT_CHARS as int);
    }
    while k < n && used + char_width(cs[k]) <= MAX_RESULT_CHARS
        invariant
            n == cs@.len(),
            cs@ == s@,
            k <= n,
            used <= MAX_RESULT_CHARS,
            fit_count(cs@, MAX_RESULT_CHARS as int) == k + fit_count(
                cs@.skip(k as int),
                MAX_RESULT_CHARS - used,
            ),
        decreases n - k,
    {
        proof {
            assert(cs@.skip(k as int)[0] == cs@[k as int]);
            assert(cs@.skip(k as int).drop_first() =~= cs@.skip(k + 1));
        }
        used = used + char_width(cs[k]);
        k = k + 1;
    }
    proof {
        if k < n {
            assert(cs@.skip(k as int)[0] == cs@[k as int]);
        }
    }
    if k == n {
        return s;
    }
    let mut j = k;
    while j > 0 && cs[j - 1] != '\n'
        invariant
            j <= k < n == cs@.len(),
            last_newline(cs@, k as int) == last_newline(cs@, j as int),
        decreases j,
    {
        j = j - 1;
    }
    let cut = if j > 0 {
        j - 1
    } else {
        k
    };
    let mut r = crate::text::string_from_chars(cs.as_slice(), 0, cut);
    r.append("\n... output truncated to fit\n");
    proof {
        assert(cs@.subrange(0, cut as int) =~= cs@.take(cut as int));
    }
    r
}

/// `name` cut to `width` characters, ending in `…` when cut.
pub open spec fn truncate_text(name: Seq<char>, width: int) -> Seq<char> {
    if name.len() <= width {
        name
    } else {
        name.take(if width >= 1 {
            width - 1
        } else {
            0
        }) + seq!['…']
    }
}

fn truncate_name(name: &str, width: usize) -> (r: String)
    ensures
        r@ == truncate_text(name@, width as int),
{
    let cs = chars_of(name);
    if cs.len() <= width {
        return String::from_str(name);
    }
    let keep = if width >= 1 {
        width - 1
    } else {
        0
    };
    let mut r = crate::text::string_from_chars(cs.as_slice(), 0, keep);
    push_char(&mut r, '…');
    proof {
        assert(cs@.subrange(0, keep as int) =~= cs@.take(keep as int));
    }
    r
}

// ---------------------------------------------------------------------
// Reclaimable-space classification
// ---------------------------------------------------------------------

/// What a well-known folder or file name means, and how safe it is to
/// remove. The caution is a fact in the tool result, not a hope about
/// what the model learned.
#[derive(Clone, Copy, Debug, PartialEq, Eq)]
pub struct Verdict {
    pub category: &'static str,
    /// How safe this is to remove, in plain words the model will repeat.
    pub caution: &'static str,
    /// Whether this is generally safe to clear.
    pub generally_safe: bool,
}

/// The verdict's text: category, caution and whether it is generally
/// safe.
pub open spec fn verdict_text(v: Verdict) -> (Seq<char>, Seq<char>, bool) {
    (v.category@, v.caution@, v.generally_safe)
}

/// The known names (already lowercased), as `(names, category, caution,
/// generally safe)`; files first, then folders.
pub open spec fn file_rules() -> Seq<(Seq<Seq<char>>, Seq<char>, Seq<char>, bool)> {
    seq![
        (seq!["hiberfil.sys"@], "Windows hibernation file"@, "Do not delete. Sized by Windows; disable hibernation with `powercfg /h off` if you want the space back."@, false),
        (seq!["pagefile.sys"@, "swapfile.sys"@], "Windows virtual memory"@, "Do not delete. Managed by Windows; change it in System > Advanced > Virtual memory instead."@, false),
    ]
}

/// The known folder names (already lowercased).
pub open spec fn folder_rules() -> Seq<(Seq<Seq<char>>, Seq<char>, Seq<char>, bool)> {
    seq![
        (seq!["node_modules"@], "JavaScript dependencies"@, "Safe to delete; `npm install` rebuilds it. Only matters if the project must work offline."@, true),
        (seq!["__pycache__"@, ".pytest_cache"@, ".mypy_cache"@, ".ruff_cache"@], "Python cache"@, "Safe to delete; regenerated automatically."@, true),
        (seq!["target"@], "Rust build output"@, "Safe to delete if this is a Rust project; `cargo build` rebuilds it, though the next build is slow."@, true),
        (seq!["build"@, "dist"@, "out"@, "obj"@, "bin"@], "Build output"@, "Usually safe if this is a project folder and you can rebuild. Check it isn't an application's install directory first."@, true),
        (seq![".gradle"@, ".m2"@, ".ivy2"@, ".nuget"@, ".cargo"@], "Package manager cache"@, "Safe to delete; re-downloaded on next build. Costs bandwidth, not data."@, true),
        (seq!["cache"@, "caches"@, "cachestorage"@, "code cache"@, "gpucache"@], "Application cache"@, "Generally safe; the app rebuilds it. Close the app first."@, true),
        (seq!["temp"@, "tmp"@], "Temporary files"@, "Generally safe when nothing is mid-install. Some entries will be locked and skipped."@, true),
        (seq!["$recycle.bin"@], "Recycle Bin"@, "Safe, but this is deleted files you can still restore. Empty it from Explorer rather than deleting the folder."@, true),
        (seq!["downloads"@], "Downloads"@, "Often reclaimable, but it is your data and nothing regenerates it. Review before removing anything."@, false),
        (seq!["softwaredistribution"@], "Windows Update cache"@, "Only the Download subfolder is reclaimable, and only via Disk Cleanup or by stopping the Windows Update service first."@, false),
        (seq!["winsxs"@], "Windows component store"@, "Never delete. Much of its apparent size is hard links counted twice. Use `DISM /Online /Cleanup-Image /StartComponentCleanup`."@, false),
        (seq!["installer"@], "Windows Installer cache"@, "Never delete manually. Removing it breaks repair, update and uninstall for installed software."@, false),
        (seq!["system volume information"@], "Restore points and shadow copies"@, "Never delete. Reduce it through System Protection settings instead."@, false),
        (seq!["appdata"@], "Application data"@, "Do not delete wholesale — it holds live settings and profiles. Look inside for caches instead."@, false),
    ]
}

/// The first rule of `rules` that lists `lower`, if any.
pub open spec fn rule_for(
    rules: Seq<(Seq<Seq<char>>, Seq<char>, Seq<char>, bool)>,
    lower: Seq<char>,
) -> Option<(Seq<char>, Seq<char>, bool)>
    decreases rules.len(),
{
    if rules.len() == 0 {
        None
    } else if rules[0].0.contains(lower) {
        Some((rules[0].1, rules[0].2, rules[0].3))
    } else {
        rule_for(rules.drop_first(), lower)
    }
}

/// What [`classify`] says of a name: matched case-insensitively, files
/// against the file rules only and directories against the folder rules
/// only.
pub open spec fn classify_spec(name: Seq<char>, is_dir: bool) -> Option<(Seq<char>, Seq<char>, bool)> {
    let lower = lowercase_of(name);
    if is_dir {
        rule_for(folder_rules(), lower)
    } else {
        rule_for(file_rules(), lower)
    }
}


/// One classification rule: the lowercased names it knows, and what it
/// says of them.
struct Rule {
    names: Vec<&'static str>,
    category: &'static str,
    caution: &'static str,
    safe: bool,
}

spec fn rule_view(r: Rule) -> (Seq<Seq<char>>, Seq<char>, Seq<char>, bool) {
    (r.names@.map_values(|n: &'static str| n@), r.category@, r.caution@, r.safe)
}

spec fn rules_view(rs: Seq<Rule>) -> Seq<(Seq<Seq<char>>, Seq<char>, Seq<char>, bool)> {
    rs.map_values(|r: Rule| rule_view(r))
}

fn rule(names: Vec<&'static str>, category: &'static str, caution: &'static str, safe: bool) -> (r: Rule)
    ensures
        rule_view(r) == (names@.map_values(|n: &'static str| n@), category@, caution@, safe),
{
    Rule { names, category, caution, safe }
}

fn file_table() -> (t: Vec<Rule>)
    ensures
        rules_view(t@) == file_rules(),
{
    let mut t: Vec<Rule> = Vec::new();
    t.push(rule(vec!["hiberfil.sys"], "Windows hibernation file", "Do not delete. Sized by Windows; disable hibernation with `powercfg /h off` if you want the space back.", false));
    t.push(rule(vec!["pagefile.sys", "swapfile.sys"], "Windows virtual memory", "Do not delete. Managed by Windows; change it in System > Advanced > Virtual memory instead.", false));
    proof {
        assert(rules_view(t@) =~~= file_rules());
    }
    t
}

fn folder_table() -> (t: Vec<Rule>)
    ensures
        rules_view(t@) == folder_rules(),
{
    let mut t: Vec<Rule> = Vec::new();
    t.push(rule(vec!["node_modules"], "JavaScript dependencies", "Safe to delete; `npm install` rebuilds it. Only matters if the project must work offline.", true));
    t.push(rule(vec!["__pycache__", ".pytest_cache", ".mypy_cache", ".ruff_cache"], "Python cache", "Safe to delete; regenerated automatically.", true));
    t.push(rule(vec!["target"], "Rust build output", "Safe to delete if this is a Rust project; `cargo build` rebuilds it, though the next build is slow.", true));
    t.push(rule(vec!["build", "dist", "out", "obj", "bin"], "Build output", "Usually safe if this is a project folder and you can rebuild. Check it isn't an application's install directory first.", true));
    t.push(rule(vec![".gradle", ".m2", ".ivy2", ".nuget", ".cargo"], "Package manager cache", "Safe to delete; re-downloaded on next build. Costs bandwidth, not data.", true));
    t.push(rule(vec!["cache", "caches", "cachestorage", "code cache", "gpucache"], "Application cache", "Generally safe; the app rebuilds it. Close the app first.", true));
    t.push(rule(vec!["temp", "tmp"], "Temporary files", "Generally safe when nothing is mid-install. Some entries will be locked and skipped.", true));
    t.push(rule(vec!["$recycle.bin"], "Recycle Bin", "Safe, but this is deleted files you can still restore. Empty it from Explorer rather than deleting the folder.", true));
    t.push(rule(vec!["downloads"], "Downloads", "Often reclaimable, but it is your data and nothing regenerates it. Review before removing anything.", false));
    t.push(rule(vec!["softwaredistribution"], "Windows Update cache", "Only the Download subfolder is reclaimable, and only via Disk Cleanup or by stopping the Windows Update service first.", false));
    t.push(rule(vec!["winsxs"], "Windows component store", "Never delete. Much of its apparent size is hard links counted twice. Use `DISM /Online /Cleanup-Image /StartComponentCleanup`.", false));
    t.push(rule(vec!["installer"], "Windows Installer cache", "Never delete manually. Removing it breaks repair, update and uninstall for installed software.", false));
    t.push(rule(vec!["system volume information"], "Restore points and shadow copies", "Never delete. Reduce it through System Protection settings instead.", false));
    t.push(rule(vec!["appdata"], "Application data", "Do not delete wholesale — it holds live settings and profiles. Look inside for caches instead.", false));
    proof {
        assert(rules_view(t@) =~~= folder_rules());
    }
    t
}

/// Whether the characters `a` spell `b`.
fn chars_are(a: &[char], b: &str) -> (r: bool)
    ensures
        r == (a@ == b@),
{
    let bc = chars_of(b);
    if a.len() != bc.len() {
        return false;
    }
    let mut i: usize = 0;
    while i < a.len()
        invariant
            a@.len() == bc@.len(),
            bc@ == b@,
            i <= a@.len(),
            forall|k: int| 0 <= k < i ==> a@[k] == bc@[k],
        decreases a@.len() - i,
    {
        if a[i] != bc[i] {
            return false;
        }
        i = i + 1;
    }
    proof {
        assert(a@ =~= bc@);
    }
    true
}

fn find_rule(table: &Vec<Rule>, lower: &[char]) -> (r: Option<usize>)
    ensures
        match r {
            Some(i) => i < table@.len() && rule_for(rules_view(table@), lower@) == Some(
                (rule_view(table@[i as int]).1, rule_view(table@[i as int]).2, rule_view(table@[i as int]).3),
            ),
            None => rule_for(rules_view(table@), lower@) == None::<(Seq<char>, Seq<char>, bool)>,
        },
{
    let ghost rv = rules_view(table@);
    let mut i: usize = 0;
    proof {
        assert(rv.skip(0) =~= rv);
    }
    while i < table.len()
        invariant
            rv == rules_view(table@),
            i <= table@.len(),
            rule_for(rv, lower@) == rule_for(rv.skip(i as int), lower@),
        decreases table@.len() - i,
    {
        let names = &table[i].names;
        let mut hit = false;
        let mut j: usize = 0;
        while j < names.len()
            invariant
                j <= names@.len(),
                hit == exists|k: int| 0 <= k < j && names@[k]@ == lower@,
            decreases names@.len() - j,
        {
            if chars_are(lower, names[j]) {
                hit = true;
            }
            j = j + 1;
        }
        let ghost nv = names@.map_values(|n: &'static str| n@);
        proof {
            assert(rv.skip(i as int)[0] == rule_view(table@[i as int]));
            assert(rv.skip(i as int).drop_first() =~= rv.skip(i + 1));
            if hit {
                let k = choose|k: int| 0 <= k < names@.len() && names@[k]@ == lower@;
                assert(nv[k] == lower@);
            } else {
                assert forall|k: int| 0 <= k < nv.len() implies nv[k] != lower@ by {
                    assert(nv[k] == names@[k]@);
                }
            }
        }
        if hit {
            return Some(i);
        }
        i = i + 1;
    }
    None
}

/// Classifies a node by name, case-insensitively; `None` means nothing
/// special is known. A file is matched against the file rules only, so a
/// file named like a cache folder is not called safe to remove.
pub fn classify(name: &str, is_dir: bool) -> (r: Option<Verdict>)
    ensures
        match r {
            Some(v) => classify_spec(name@, is_dir) == Some(verdict_text(v)),
            None => classify_spec(name@, is_dir) == None::<(Seq<char>, Seq<char>, bool)>,
        },
{
    let lower = to_lowercase(name);
    let lc = chars_of(lower.as_str());
    let table = if is_dir {
        folder_table()
    } else {
        file_table()
    };
    match find_rule(&table, lc.as_slice()) {
        Some(i) => Some(
            Verdict {
                category: table[i].category,
                caution: table[i].caution,
                generally_safe: table[i].safe,
            },
        ),
        None => None,
    }
}

/// The lowercased folder names that are generally safe to clear: what
/// a package manager, a compiler or an application rebuilds by itself,
/// temporary files and the Recycle Bin.
pub open spec fn generally_safe_folder_names() -> Seq<Seq<char>> {
    seq![
        "node_modules"@, "__pycache__"@, ".pytest_cache"@, ".mypy_cache"@, ".ruff_cache"@,
        "target"@, "build"@, "dist"@, "out"@, "obj"@, "bin"@,
        ".gradle"@, ".m2"@, ".ivy2"@, ".nuget"@, ".cargo"@,
        "cache"@, "caches"@, "cachestorage"@, "code cache"@, "gpucache"@,
        "temp"@, "tmp"@, "$recycle.bin"@,
    ]
}

/// Index of the first rule of `rules` that lists `lower` (the length
/// when none does).
spec fn first_rule(rules: Seq<(Seq<Seq<char>>, Seq<char>, Seq<char>, bool)>, lower: Seq<char>) -> int
    decreases rules.len(),
{
    if rules.len() == 0 {
        0
    } else if rules[0].0.contains(lower) {
        0
    } else {
        1 + first_rule(rules.drop_first(), lower)
    }
}

proof fn lemma_first_rule(rules: Seq<(Seq<Seq<char>>, Seq<char>, Seq<char>, bool)>, lower: Seq<char>)
    ensures
        0 <= first_rule(rules, lower) <= rules.len(),
        forall|j: int| 0 <= j < first_rule(rules, lower) ==> !(#[trigger] rules[j]).0.contains(lower),
        first_rule(rules, lower) < rules.len() ==> rules[first_rule(rules, lower)].0.contains(lower)
            && rule_for(rules, lower) == Some(
                (
                    rules[first_rule(rules, lower)].1,
                    rules[first_rule(rules, lower)].2,
                    rules[first_rule(rules, lower)].3,
                ),
            ),
        first_rule(rules, lower) == rules.len() ==> rule_for(rules, lower) == None::<
            (Seq<char>, Seq<char>, bool),
        >,
    decreases rules.len(),
{
    if rules.len() > 0 && !rules[0].0.contains(lower) {
        let rest = rules.drop_first();
        lemma_first_rule(rest, lower);
        assert forall|j: int| 0 <= j < first_rule(rules, lower) implies !(#[trigger] rules[j]).0.contains(
            lower,
        ) by {
            if j > 0 {
                assert(rules[j] == rest[j - 1]);
            }
        }
    }
}

/// A folder is called generally safe to clear exactly when its
/// lowercased name is one of [`generally_safe_folder_names`]; every name
/// there is known; and no file is ever called safe.
pub proof fn law_generally_safe_exactly_the_regenerable_folders(name: Seq<char>)
    ensures
        classify_spec(name, true) is Some ==> (classify_spec(name, true).unwrap().2
            <==> generally_safe_folder_names().contains(lowercase_of(name))),
        generally_safe_folder_names().contains(lowercase_of(name)) ==> classify_spec(name, true) is Some,
        classify_spec(name, false) is Some ==> !classify_spec(name, false).unwrap().2,
{
    let l = lowercase_of(name);
    let rs = folder_rules();
    let safe = generally_safe_folder_names();
    lemma_first_rule(rs, l);
    lemma_first_rule(file_rules(), l);
    let f = first_rule(rs, l);
    if safe.contains(l) {
        let k = choose|k: int| 0 <= k < safe.len() && safe[k] == l;
        let j: int = if k < 1 {
            0
        } else if k < 5 {
            1
        } else if k < 6 {
            2
        } else if k < 11 {
            3
        } else if k < 16 {
            4
        } else if k < 21 {
            5
        } else if k < 23 {
            6
        } else {
            7
        };
        let names = rs[j].0;
        let m: int = if k < 1 {
            k
        } else if k < 5 {
            k - 1
        } else if k < 6 {
            k - 5
        } else if k < 11 {
            k - 6
        } else if k < 16 {
            k - 11
        } else if k < 21 {
            k - 16
        } else if k < 23 {
            k - 21
        } else {
            k - 23
        };
        assert(names[m] == l);
        assert(names.contains(l));
        assert(f <= j);
        assert(f < 8);
        assert(rs[f].3);
    }
    if f < 8 {
        let names = rs[f].0;
        let m = choose|m: int| 0 <= m < names.len() && names[m] == l;
        let k: int = if f == 0 {
            m
        } else if f == 1 {
            m + 1
        } else if f == 2 {
            m + 5
        } else if f == 3 {
            m + 6
        } else if f == 4 {
            m + 11
        } else if f == 5 {
            m + 16
        } else if f == 6 {
            m + 21
        } else {
            m + 23
        };
        assert(safe[k] == l);
        assert(safe.contains(l));
    } else if f < rs.len() {
        assert(!rs[f].3);
    }
    let fr = file_rules();
    let g = first_rule(fr, l);
    if g < fr.len() {
        assert(!fr[g].3);
    }
}

/// A folder named Downloads, in any case, is known and is not called
/// safe to clear: it is the user's own data.
pub proof fn law_downloads_is_never_called_safe(name: Seq<char>)
    requires
        lowercase_of(name) == "downloads"@,
    ensures
        classify_spec(name, true) is Some,
        classify_spec(name, true).unwrap().0 == "Downloads"@,
        !classify_spec(name, true).unwrap().2,
{
    let l = lowercase_of(name);
    let rs = folder_rules();
    lemma_first_rule(rs, l);
    reveal_strlit("downloads");
    reveal_strlit("node_modules");
    reveal_strlit("__pycache__");
    reveal_strlit(".pytest_cache");
    reveal_strlit(".mypy_cache");
    reveal_strlit(".ruff_cache");
    reveal_strlit("target");
    reveal_strlit("build");
    reveal_strlit("dist");
    reveal_strlit("out");
    reveal_strlit("obj");
    reveal_strlit("bin");
    reveal_strlit(".gradle");
    reveal_strlit(".m2");
    reveal_strlit(".ivy2");
    reveal_strlit(".nuget");
    reveal_strlit(".cargo");
    reveal_strlit("cache");
    reveal_strlit("caches");
    reveal_strlit("cachestorage");
    reveal_strlit("code cache");
    reveal_strlit("gpucache");
    reveal_strlit("temp");
    reveal_strlit("tmp");
    reveal_strlit("$recycle.bin");
    assert(rs[8].0[0] == l);
    assert(rs[8].0.contains(l));
    let f = first_rule(rs, l);
    assert(f <= 8);
    assert forall|j: int| 0 <= j < 8 implies !(#[trigger] rs[j]).0.contains(l) by {
        if rs[j].0.contains(l) {
            let m = choose|m: int| 0 <= m < rs[j].0.len() && rs[j].0[m] == l;
            assert(rs[j].0[m].len() != l.len());
        }
    }
    assert(f == 8);
}

// ---------------------------------------------------------------------
// Listings
// ---------------------------------------------------------------------

fn size_of(tree: &Tree, id: NodeId, use_alloc: bool) -> (n: u64)
    requires
        tree.wf(),
        id < tree.node_total(),
    ensures
        n == size_in(tree, id as int, use_alloc),
{
    if use_alloc {
        tree.subtree_alloc(id)
    } else {
        tree.subtree_logical(id)
    }
}

/// Tenths shown for `part` as a share of `whole`: 0 when `whole` is 0.
pub open spec fn share_tenths(part: nat, whole: nat) -> nat {
    if whole == 0 {
        0
    } else {
        percent_tenths(part, whole)
    }
}

fn share_of(part: u64, whole: u64) -> (t: u128)
    ensures
        t == share_tenths(part as nat, whole as nat),
{
    if whole == 0 {
        0
    } else {
        percent_tenths_of(part, whole)
    }
}

/// The nodes `ids` ordered largest first (ties keep their order).
pub open spec fn by_size(t: &Tree, ids: Seq<NodeId>, use_alloc: bool) -> Seq<NodeId> {
    ranked(
        ids.len() as int,
        Seq::new(ids.len(), |i: int| size_in(t, ids[i] as int, use_alloc)),
        Seq::empty(),
        Seq::empty(),
        TieBreak::Stable,
    ).map_values(|p: int| ids[p])
}

fn sort_by_size(tree: &Tree, ids: &Vec<NodeId>, use_alloc: bool) -> (out: Vec<NodeId>)
    requires
        tree.wf(),
        forall|k: int| 0 <= k < ids@.len() ==> #[trigger] ids@[k] < tree.node_total(),
    ensures
        out@ == by_size(tree, ids@, use_alloc),
        out@.len() == ids@.len(),
        forall|k: int| 0 <= k < out@.len() ==> #[trigger] out@[k] < tree.node_total(),
{
    let mut keys: Vec<u64> = Vec::new();
    let mut i: usize = 0;
    while i < ids.len()
        invariant
            tree.wf(),
            forall|k: int| 0 <= k < ids@.len() ==> #[trigger] ids@[k] < tree.node_total(),
            i <= ids@.len(),
            keys@ == Seq::new(ids@.len(), |j: int| size_in(tree, ids@[j] as int, use_alloc)).take(i as int),
        decreases ids@.len() - i,
    {
        keys.push(size_of(tree, ids[i], use_alloc));
        proof {
            assert(keys@ =~= Seq::new(ids@.len(), |j: int| size_in(tree, ids@[j] as int, use_alloc)).take(i + 1));
        }
        i = i + 1;
    }
    proof {
        assert(keys@ =~= Seq::new(ids@.len(), |j: int| size_in(tree, ids@[j] as int, use_alloc)));
    }
    let none: Vec<u64> = Vec::new();
    let no_names: Vec<Vec<char>> = Vec::new();
    let order = rank_positions(keys.as_slice(), none.as_slice(), &no_names, TieBreak::Stable);
    let ghost r = order@.map_values(|p: usize| p as int);
    proof {
        assert(none@ =~= Seq::<u64>::empty());
        assert(no_names@.map_values(|v: Vec<char>| v@) =~= Seq::<Seq<char>>::empty());
    }
    let mut out: Vec<NodeId> = Vec::new();
    let mut m: usize = 0;
    while m < order.len()
        invariant
            order@.len() == ids@.len(),
            forall|k: int| 0 <= k < order@.len() ==> #[trigger] order@[k] < ids@.len(),
            forall|k: int| 0 <= k < ids@.len() ==> #[trigger] ids@[k] < tree.node_total(),
            r == order@.map_values(|p: usize| p as int),
            m <= order@.len(),
            out@ == r.take(m as int).map_values(|p: int| ids@[p]),
            forall|k: int| 0 <= k < out@.len() ==> #[trigger] out@[k] < tree.node_total(),
        decreases order@.len() - m,
    {
        out.push(ids[order[m]]);
        proof {
            assert(out@ =~= r.take(m + 1).map_values(|p: int| ids@[p]));
        }
        m = m + 1;
    }
    proof {
        assert(r.take(r.len() as int) =~= r);
    }
    out
}

/// One row of a folder listing: the name (with a trailing `/` for a
/// folder) cut to 40 characters, the size, the share, and for a folder
/// its file count.
pub open spec fn row_line(name: Seq<char>, size: u64, share: nat, items: nat, is_dir: bool) -> Seq<char> {
    let n = if is_dir {
        name.push('/')
    } else {
        name
    };
    pad_right(truncate_text(n, 40), 40) + "  "@ + pad_left(bytes_text(size as nat), 10) + "  "@ + pad_left(
        one_decimal(share),
        6,
    ) + "%"@ + if is_dir {
        "  "@ + grouped(decimal(items)) + " items"@
    } else {
        Seq::empty()
    } + "\n"@
}

/// The line saying how many rows were left out.
pub open spec fn more_line(n: nat) -> Seq<char> {
    "... "@ + grouped(decimal(n)) + " more not shown\n"@
}

/// The rows of the nodes `ids` of a listing whose whole is `total`.
pub open spec fn listing_lines(t: &Tree, ids: Seq<NodeId>, total: u64, use_alloc: bool) -> Seq<char>
    decreases ids.len(),
{
    if ids.len() == 0 {
        Seq::empty()
    } else {
        let id = ids.last() as int;
        let size = size_in(t, id, use_alloc);
        listing_lines(t, ids.drop_last(), total, use_alloc) + row_line(
            t.name_at(id),
            size,
            share_tenths(size as nat, total as nat),
            t.files_at(id) as nat,
            t.is_dir_at(id),
        )
    }
}

/// The header of a folder listing.
pub open spec fn listing_header() -> Seq<char> {
    "NAME                                          SIZE   SHARE"@
}

/// What is directly inside `node`, largest first: at most `limit` rows,
/// and a line counting the rest.
pub open spec fn folder_listing_text(t: &Tree, node: int, use_alloc: bool, limit: usize) -> Seq<char> {
    let kids = t.kids(node);
    if kids.len() == 0 {
        "(empty)\n"@
    } else {
        let order = by_size(t, kids, use_alloc);
        let n = kids.len() as int;
        let shown = if (limit as int) < n {
            limit as int
        } else {
            n
        };
        clamp_text(
            listing_header() + "\n"@ + listing_lines(
                t,
                order.take(shown),
                size_in(t, node, use_alloc),
                use_alloc,
            ) + if n > shown {
                more_line((n - shown) as nat)
            } else {
                Seq::empty()
            },
        )
    }
}

fn write_row_line(out: &mut String, name: &str, size: u64, share: u128, items: u64, is_dir: bool)
    ensures
        final(out)@ == old(out)@ + row_line(name@, size, share as nat, items as nat, is_dir),
{
    proof {
        reveal_strlit("  ");
        reveal_strlit("%");
        reveal_strlit(" items");
        reveal_strlit("\n");
    }
    let mut n = String::from_str(name);
    if is_dir {
        push_char(&mut n, '/');
    }
    let cut = truncate_name(n.as_str(), 40);
    push_pad_right(out, cut.as_str(), 40);
    out.append("  ");
    push_pad_left(out, bytes(size).as_str(), 10);
    out.append("  ");
    let mut pct = String::new();
    push_one_decimal(&mut pct, share);
    proof {
        assert(pct@ =~= one_decimal(share as nat));
    }
    push_pad_left(out, pct.as_str(), 6);
    out.append("%");
    let ghost m = out@;
    if is_dir {
        out.append("  ");
        out.append(count(items).as_str());
        out.append(" items");
    }
    out.append("\n");
    proof {
        assert(final(out)@ =~= old(out)@ + row_line(name@, size, share as nat, items as nat, is_dir));
    }
}

fn write_more_line(out: &mut String, n: u64)
    ensures
        final(out)@ == old(out)@ + more_line(n as nat),
{
    proof {
        reveal_strlit("... ");
        reveal_strlit(" more not shown\n");
    }
    out.append("... ");
    out.append(count(n).as_str());
    out.append(" more not shown\n");
    proof {
        assert(final(out)@ =~= old(out)@ + more_line(n as nat));
    }
}

/// What is directly inside `node`, largest first, at most `limit` rows.
pub fn folder_listing(tree: &Tree, node: NodeId, use_alloc: bool, limit: usize) -> (s: String)
    requires
        tree.wf(),
        node < tree.node_total(),
    ensures
        s@ == folder_listing_text(tree, node as int, use_alloc, limit),
{
    proof {
        reveal_strlit("(empty)\n");
        reveal_strlit("NAME                                          SIZE   SHARE");
        reveal_strlit("\n");
    }
    let kids_slice = tree.children(node);
    if kids_slice.len() == 0 {
        return String::from_str("(empty)\n");
    }
    let mut kids: Vec<NodeId> = Vec::new();
    let mut i: usize = 0;
    while i < kids_slice.len()
        invariant
            i <= kids_slice@.len(),
            kids@ == kids_slice@.take(i as int),
        decreases kids_slice@.len() - i,
    {
        kids.push(kids_slice[i]);
        proof {
            assert(kids@ =~= kids_slice@.take(i + 1));
        }
        i = i + 1;
    }
    proof {
        assert(kids@ =~= kids_slice@);
    }
    let order = sort_by_size(tree, &kids, use_alloc);
    let total = size_of(tree, node, use_alloc);
    let n = kids.len();
    let shown = if limit < n {
        limit
    } else {
        n
    };
    let mut out = String::from_str("NAME                                          SIZE   SHARE");
    out.append("\n");
    let ghost head = out@;
    let mut k: usize = 0;
    while k < shown
        invariant
            tree.wf(),
            order@.len() == n,
            forall|q: int| 0 <= q < order@.len() ==> #[trigger] order@[q] < tree.node_total(),
            shown <= n,
            k <= shown,
            out@ == head + listing_lines(tree, order@.take(k as int), total, use_alloc),
        decreases shown - k,
    {
        let id = order[k];
        let size = size_of(tree, id, use_alloc);
        write_row_line(&mut out, tree.name(id), size, share_of(size, total), tree.file_count(id) as u64, tree.is_dir(id));
        proof {
            assert(order@.take(k + 1).drop_last() =~= order@.take(k as int));
            assert(order@.take(k + 1).last() == id);
        }
        k = k + 1;
    }
    if n > shown {
        write_more_line(&mut out, (n - shown) as u64);
    }
    proof {
        assert(out@ =~= listing_header() + "\n"@ + listing_lines(tree, order@.take(shown as int), total, use_alloc) + if n > shown {
            more_line((n - shown) as nat)
        } else {
            Seq::empty()
        });
    }
    clamp(out)
}

/// The files among `s` of at least `min` bytes.
pub open spec fn large_files(t: &Tree, s: Seq<NodeId>, min: u64, use_alloc: bool) -> Seq<NodeId>
    decreases s.len(),
{
    if s.len() == 0 {
        Seq::empty()
    } else {
        let rest = large_files(t, s.drop_last(), min, use_alloc);
        let x = s.last() as int;
        if !t.is_dir_at(x) && size_in(t, x, use_alloc) >= min {
            rest.push(s.last())
        } else {
            rest
        }
    }
}

/// One line of the largest-files list: the path cut to 44 characters,
/// the size and the share.
pub open spec fn file_line(t: &Tree, id: int, total: u64, use_alloc: bool) -> Seq<char> {
    let size = size_in(t, id, use_alloc);
    pad_right(truncate_text(path_text(t, id, "/"@), 44), 44) + "  "@ + pad_left(bytes_text(size as nat), 10)
        + "  "@ + pad_left(one_decimal(share_tenths(size as nat, total as nat)), 6) + "%\n"@
}

/// The lines of the nodes `ids`.
pub open spec fn file_lines(t: &Tree, ids: Seq<NodeId>, total: u64, use_alloc: bool) -> Seq<char>
    decreases ids.len(),
{
    if ids.len() == 0 {
        Seq::empty()
    } else {
        file_lines(t, ids.drop_last(), total, use_alloc) + file_line(t, ids.last() as int, total, use_alloc)
    }
}

/// The biggest files anywhere under `node`, at least `min_bytes` each,
/// largest first, at most `limit` of them.
pub open spec fn largest_files_text(t: &Tree, node: int, use_alloc: bool, min_bytes: u64, limit: usize) -> Seq<char> {
    let f = large_files(t, t.subtree_order(node), min_bytes, use_alloc);
    if f.len() == 0 {
        "No files at or above "@ + bytes_text(min_bytes as nat) + " under this folder.\n"@
    } else {
        let n = f.len() as int;
        let shown = if (limit as int) < n {
            limit as int
        } else {
            n
        };
        clamp_text(
            "PATH (relative to the scan root)                SIZE   SHARE\n"@ + file_lines(
                t,
                by_size(t, f, use_alloc).take(shown),
                size_in(t, node, use_alloc),
                use_alloc,
            ) + if n > (limit as int) {
                more_line((n - limit) as nat)
            } else {
                Seq::empty()
            },
        )
    }
}

fn write_file_line(out: &mut String, tree: &Tree, id: NodeId, total: u64, use_alloc: bool)
    requires
        tree.wf(),
        id < tree.node_total(),
    ensures
        final(out)@ == old(out)@ + file_line(tree, id as int, total, use_alloc),
{
    proof {
        reveal_strlit("  ");
        reveal_strlit("%\n");
        reveal_strlit("/");
    }
    let size = size_of(tree, id, use_alloc);
    let p = tree.path(id, "/");
    let cut = truncate_name(p.as_str(), 44);
    push_pad_right(out, cut.as_str(), 44);
    out.append("  ");
    push_pad_left(out, bytes(size).as_str(), 10);
    out.append("  ");
    let mut pct = String::new();
    push_one_decimal(&mut pct, share_of(size, total));
    proof {
        assert(pct@ =~= one_decimal(share_tenths(size as nat, total as nat)));
    }
    push_pad_left(out, pct.as_str(), 6);
    out.append("%\n");
    proof {
        assert(final(out)@ =~= old(out)@ + file_line(tree, id as int, total, use_alloc));
    }
}

/// The nodes of the subtree of `root` kept by a filter, in walk order.
fn collect_subtree(tree: &Tree, root: NodeId) -> (ids: Vec<NodeId>)
    requires
        tree.wf(),
        root < tree.node_total(),
    ensures
        ids@ == tree.subtree_order(root as int),
        forall|k: int| 0 <= k < ids@.len() ==> #[trigger] ids@[k] < tree.node_total(),
        ids@.no_duplicates(),
        ids@.len() <= tree.node_total(),
{
    proof {
        tree.law_subtree_order_is_distinct(root as int);
    }
    tree.descendants(root)
}

proof fn lemma_large_files(t: &Tree, s: Seq<NodeId>, min: u64, use_alloc: bool)
    ensures
        forall|x: NodeId|
            large_files(t, s, min, use_alloc).contains(x) <==> (s.contains(x) && !t.is_dir_at(x as int)
                && size_in(t, x as int, use_alloc) >= min),
        s.no_duplicates() ==> large_files(t, s, min, use_alloc).no_duplicates(),
    decreases s.len(),
{
    if s.len() > 0 {
        let d = s.drop_last();
        lemma_large_files(t, d, min, use_alloc);
        let rest = large_files(t, d, min, use_alloc);
        let f = large_files(t, s, min, use_alloc);
        assert forall|x: NodeId| f.contains(x) <==> (s.contains(x) && !t.is_dir_at(x as int) && size_in(
            t,
            x as int,
            use_alloc,
        ) >= min) by {
            if f.contains(x) {
                let k = choose|k: int| 0 <= k < f.len() && f[k] == x;
                if k < rest.len() {
                    assert(rest[k] == x);
                    assert(rest.contains(x));
                    assert(d.contains(x));
                    let j = choose|j: int| 0 <= j < d.len() && d[j] == x;
                    assert(s[j] == x);
                } else {
                    assert(s[s.len() - 1] == x);
                }
            }
            if s.contains(x) && !t.is_dir_at(x as int) && size_in(t, x as int, use_alloc) >= min {
                let j = choose|j: int| 0 <= j < s.len() && s[j] == x;
                if j < d.len() {
                    assert(d[j] == x);
                    assert(d.contains(x));
                    assert(rest.contains(x));
                    let k = choose|k: int| 0 <= k < rest.len() && rest[k] == x;
                    assert(f[k] == x);
                } else {
                    assert(f[f.len() - 1] == x);
                }
            }
        }
        if s.no_duplicates() {
            assert(d.no_duplicates()) by {
                assert forall|i: int, j: int| 0 <= i < d.len() && 0 <= j < d.len() && i != j implies d[i] != d[j] by {
                    assert(d[i] == s[i] && d[j] == s[j]);
                }
            }
            if !t.is_dir_at(s.last() as int) && size_in(t, s.last() as int, use_alloc) >= min {
                assert(!rest.contains(s.last())) by {
                    if rest.contains(s.last()) {
                        assert(d.contains(s.last()));
                        let j = choose|j: int| 0 <= j < d.len() && d[j] == s.last();
                        assert(s[j] == s[s.len() - 1]);
                    }
                }
                assert forall|i: int, j: int| 0 <= i < f.len() && 0 <= j < f.len() && i != j implies f[i] != f[j] by {
                    if i < rest.len() && j < rest.len() {
                        assert(f[i] == rest[i] && f[j] == rest[j]);
                    } else if i < rest.len() {
                        assert(f[i] == rest[i]);
                    } else {
                        assert(f[j] == rest[j]);
                    }
                }
            }
        }
    }
}

/// Ordering distinct nodes by size keeps exactly those nodes, each once,
/// larger before smaller.
proof fn lemma_by_size(t: &Tree, f: Seq<NodeId>, use_alloc: bool)
    requires
        f.no_duplicates(),
    ensures
        ({
            let o = by_size(t, f, use_alloc);
            &&& o.len() == f.len()
            &&& o.no_duplicates()
            &&& forall|x: NodeId| o.contains(x) <==> f.contains(x)
            &&& forall|i: int, j: int|
                #![trigger o[i], o[j]]
                0 <= i < j < o.len() ==> size_in(t, o[i] as int, use_alloc) >= size_in(t, o[j] as int, use_alloc)
        }),
{
    broadcast use vstd::set::group_set_axioms, vstd::seq_lib::seq_to_set_is_finite;

    let keys = Seq::new(f.len(), |i: int| size_in(t, f[i] as int, use_alloc));
    let r = ranked(f.len() as int, keys, Seq::empty(), Seq::empty(), TieBreak::Stable);
    lemma_ranked_perm(f.len() as int, keys, Seq::empty(), Seq::empty(), TieBreak::Stable);
    crate::sort::law_ranked_keys_descend(f.len() as int, keys, Seq::empty(), Seq::empty(), TieBreak::Stable);
    let o = by_size(t, f, use_alloc);
    assert(o == r.map_values(|p: int| f[p]));
    assert forall|i: int, j: int| 0 <= i < o.len() && 0 <= j < o.len() && i != j implies o[i] != o[j] by {
        assert(o[i] == f[r[i]] && o[j] == f[r[j]]);
    }
    assert forall|i: int, j: int| #![trigger o[i], o[j]] 0 <= i < j < o.len() implies size_in(t, o[i] as int, use_alloc)
        >= size_in(t, o[j] as int, use_alloc) by {
        assert(o[i] == f[r[i]] && o[j] == f[r[j]]);
        assert(keys[r[i]] >= keys[r[j]]);
    }
    // Every element of `o` is one of `f`, and there are as many, all
    // distinct: so they are the same elements.
    assert forall|y: NodeId| o.to_set().contains(y) implies f.to_set().contains(y) by {
        let k = choose|k: int| 0 <= k < o.len() && o[k] == y;
        assert(o[k] == f[r[k]]);
    }
    o.unique_seq_to_set();
    f.lemma_cardinality_of_set();
    vstd::set_lib::lemma_len_subset(o.to_set(), f.to_set());
    vstd::set_lib::lemma_subset_equality(o.to_set(), f.to_set());
    assert forall|x: NodeId| o.contains(x) <==> f.contains(x) by {
        assert(o.contains(x) <==> o.to_set().contains(x));
        assert(f.contains(x) <==> f.to_set().contains(x));
    }
}

/// The largest-files report lists the biggest files: its rows are the
/// first of an order that holds every file at or below `node` of at least
/// `min` bytes, each once and nothing else, largest first.
pub proof fn law_largest_files_lists_the_largest(t: &Tree, node: int, use_alloc: bool, min: u64)
    requires
        t.wf(),
        0 <= node < t.node_total(),
    ensures
        ({
            let o = by_size(t, large_files(t, t.subtree_order(node), min, use_alloc), use_alloc);
            &&& o.no_duplicates()
            &&& forall|x: NodeId|
                o.contains(x) <==> ((x as int) < t.node_total() && t.is_ancestor(node, x as int)
                    && !t.is_dir_at(x as int) && size_in(t, x as int, use_alloc) >= min)
            &&& forall|i: int, j: int|
                #![trigger o[i], o[j]]
                0 <= i < j < o.len() ==> size_in(t, o[i] as int, use_alloc) >= size_in(t, o[j] as int, use_alloc)
        }),
{
    let w = t.subtree_order(node);
    t.law_subtree_order_is_distinct(node);
    lemma_large_files(t, w, min, use_alloc);
    let f = large_files(t, w, min, use_alloc);
    lemma_by_size(t, f, use_alloc);
    let o = by_size(t, f, use_alloc);
    assert forall|x: NodeId| o.contains(x) <==> ((x as int) < t.node_total() && t.is_ancestor(node, x as int)
        && !t.is_dir_at(x as int) && size_in(t, x as int, use_alloc) >= min) by {
        t.law_subtree_order_is_exactly_the_subtree(node, x as int);
        assert(f.contains(x) <==> (w.contains(x) && !t.is_dir_at(x as int) && size_in(t, x as int, use_alloc) >= min));
        if w.contains(x) {
            let k = choose|k: int| 0 <= k < w.len() && w[k] == x;
            assert(w[k] < t.node_total());
        }
    }
}

/// The biggest individual files anywhere under `node`, however deep.
pub fn largest_files(tree: &Tree, node: NodeId, use_alloc: bool, min_bytes: u64, limit: usize) -> (s: String)
    requires
        tree.wf(),
        node < tree.node_total(),
    ensures
        s@ == largest_files_text(tree, node as int, use_alloc, min_bytes, limit),
{
    proof {
        reveal_strlit("No files at or above ");
        reveal_strlit(" under this folder.\n");
        reveal_strlit("PATH (relative to the scan root)                SIZE   SHARE\n");
    }
    let ids = collect_subtree(tree, node);
    let ghost d = ids@;
    let mut files: Vec<NodeId> = Vec::new();
    let mut i: usize = 0;
    while i < ids.len()
        invariant
            tree.wf(),
            d == ids@,
            forall|k: int| 0 <= k < d.len() ==> #[trigger] d[k] < tree.node_total(),
            i <= d.len(),
            files@ == large_files(tree, d.take(i as int), min_bytes, use_alloc),
            forall|k: int| 0 <= k < files@.len() ==> #[trigger] files@[k] < tree.node_total(),
        decreases d.len() - i,
    {
        let id = ids[i];
        proof {
            assert(d.take(i + 1).drop_last() =~= d.take(i as int));
            assert(d.take(i + 1).last() == id);
        }
        if !tree.is_dir(id) && size_of(tree, id, use_alloc) >= min_bytes {
            files.push(id);
        }
        i = i + 1;
    }
    proof {
        assert(d.take(d.len() as int) =~= d);
    }
    if files.len() == 0 {
        let mut out = String::from_str("No files at or above ");
        out.append(bytes(min_bytes).as_str());
        out.append(" under this folder.\n");
        return out;
    }
    let order = sort_by_size(tree, &files, use_alloc);
    let n = files.len();
    let total = size_of(tree, node, use_alloc);
    let shown = if limit < n {
        limit
    } else {
        n
    };
    let mut out = String::from_str("PATH (relative to the scan root)                SIZE   SHARE\n");
    let ghost head = out@;
    let mut k: usize = 0;
    while k < shown
        invariant
            tree.wf(),
            order@.len() == n,
            forall|q: int| 0 <= q < order@.len() ==> #[trigger] order@[q] < tree.node_total(),
            shown <= n,
            k <= shown,
            out@ == head + file_lines(tree, order@.take(k as int), total, use_alloc),
        decreases shown - k,
    {
        let id = order[k];
        write_file_line(&mut out, tree, id, total, use_alloc);
        proof {
            assert(order@.take(k + 1).drop_last() =~= order@.take(k as int));
            assert(order@.take(k + 1).last() == id);
        }
        k = k + 1;
    }
    if n > limit {
        write_more_line(&mut out, (n - limit) as u64);
    }
    proof {
        assert(out@ =~= "PATH (relative to the scan root)                SIZE   SHARE\n"@ + file_lines(tree, order@.take(shown as int), total, use_alloc) + if n > limit {
            more_line((n - limit) as nat)
        } else {
            Seq::empty()
        });
    }
    clamp(out)
}

/// The label of a file type in the digest.
pub open spec fn digest_type_label(k: Seq<char>) -> Seq<char> {
    if k.len() == 0 {
        "(no extension)"@
    } else {
        "."@ + k
    }
}

/// One line of the type breakdown.
pub open spec fn type_row(label: Seq<char>, size: int, files: int, total: int) -> Seq<char> {
    pad_right(truncate_text(label, 14), 14) + "  "@ + pad_left(bytes_text(size as nat), 10) + "  "@ + pad_left(
        one_decimal(share_tenths(size as nat, total as nat)),
        6,
    ) + "%  "@ + pad_left(grouped(decimal(files as nat)), 8) + "\n"@
}

/// The lines of the types at positions `ps`.
pub open spec fn type_rows(
    t: &Tree,
    d: Seq<NodeId>,
    ks: Seq<Seq<char>>,
    ps: Seq<int>,
    use_alloc: bool,
    total: int,
) -> Seq<char>
    decreases ps.len(),
{
    if ps.len() == 0 {
        Seq::empty()
    } else {
        let k = ks[ps.last()];
        type_rows(t, d, ks, ps.drop_last(), use_alloc, total) + type_row(
            digest_type_label(k),
            type_size(t, d, k, use_alloc),
            t.type_files(d, k),
            total,
        )
    }
}

/// The positions `0..n`.
pub open spec fn all_positions(n: int) -> Seq<int> {
    Seq::new(n as nat, |i: int| i)
}

/// Which file types account for the space under `node`: largest first,
/// equal sizes by name, at most `limit` rows, shares of the total over
/// all types.
pub open spec fn type_breakdown_text(t: &Tree, node: int, use_alloc: bool, limit: usize) -> Seq<char> {
    let d = t.subtree_order(node);
    let ks = t.type_keys(d);
    let n = ks.len() as int;
    if n == 0 {
        "(no files)\n"@
    } else {
        let order = type_order(t, d, ks, use_alloc);
        let shown = if (limit as int) < n {
            limit as int
        } else {
            n
        };
        let total = sizes_sum(t, d, ks, all_positions(n), use_alloc);
        clamp_text(
            "TYPE               SIZE   SHARE     FILES\n"@ + type_rows(t, d, ks, order.take(shown), use_alloc, total)
                + if n > (limit as int) {
                "... "@ + grouped(decimal((n - limit) as nat)) + " more types not shown\n"@
            } else {
                Seq::empty()
            },
        )
    }
}

/// The type breakdown's order holds each file type under `node` once, a
/// larger total never after a smaller one.
pub proof fn law_type_breakdown_ranks_by_size(t: &Tree, node: int, use_alloc: bool)
    requires
        t.wf(),
        0 <= node < t.node_total(),
    ensures
        ({
            let d = t.subtree_order(node);
            let ks = t.type_keys(d);
            let o = type_order(t, d, ks, use_alloc);
            &&& o.len() == ks.len()
            &&& o.no_duplicates()
            &&& forall|k: int| 0 <= k < o.len() ==> 0 <= #[trigger] o[k] < ks.len()
            &&& forall|i: int, j: int|
                #![trigger o[i], o[j]]
                0 <= i < j < o.len() ==> type_size(t, d, ks[o[i]], use_alloc) as u64 >= type_size(
                    t,
                    d,
                    ks[o[j]],
                    use_alloc,
                ) as u64
            &&& forall|i: int, j: int|
                #![trigger o[i], o[j]]
                0 <= i < j < o.len() && type_size(t, d, ks[o[i]], use_alloc) as u64 == type_size(
                    t,
                    d,
                    ks[o[j]],
                    use_alloc,
                ) as u64 ==> !crate::sort::chars_lt(ks[o[j]], ks[o[i]])
        }),
{
    let d = t.subtree_order(node);
    let ks = t.type_keys(d);
    let keys = Seq::new(ks.len(), |i: int| type_size(t, d, ks[i], use_alloc) as u64);
    lemma_ranked_perm(ks.len() as int, keys, Seq::empty(), ks, TieBreak::NameAsc);
    crate::sort::law_ranked_keys_descend(ks.len() as int, keys, Seq::empty(), ks, TieBreak::NameAsc);
    crate::sort::law_ranked_is_ordered(ks.len() as int, keys, Seq::empty(), ks, TieBreak::NameAsc);
    let o = type_order(t, d, ks, use_alloc);
    assert forall|i: int, j: int| #![trigger o[i], o[j]] 0 <= i < j < o.len() implies type_size(
        t,
        d,
        ks[o[i]],
        use_alloc,
    ) as u64 >= type_size(t, d, ks[o[j]], use_alloc) as u64 by {
        assert(keys[o[i]] >= keys[o[j]]);
    }
    assert forall|i: int, j: int| #![trigger o[i], o[j]] 0 <= i < j < o.len() && type_size(
        t,
        d,
        ks[o[i]],
        use_alloc,
    ) as u64 == type_size(t, d, ks[o[j]], use_alloc) as u64 implies !crate::sort::chars_lt(ks[o[j]], ks[o[i]]) by {
        assert(!crate::sort::rank_lt(keys, Seq::empty(), ks, TieBreak::NameAsc, o[j], o[i]));
    }
}

fn write_type_row(out: &mut String, key: &str, size: u64, files: u64, total: u64)
    ensures
        final(out)@ == old(out)@ + type_row(digest_type_label(key@), size as int, files as int, total as int),
{
    proof {
        reveal_strlit("(no extension)");
        reveal_strlit(".");
        reveal_strlit("  ");
        reveal_strlit("%  ");
        reveal_strlit("\n");
    }
    let label = if key.is_empty() {
        String::from_str("(no extension)")
    } else {
        let mut l = String::from_str(".");
        l.append(key);
        l
    };
    let cut = truncate_name(label.as_str(), 14);
    push_pad_right(out, cut.as_str(), 14);
    out.append("  ");
    push_pad_left(out, bytes(size).as_str(), 10);
    out.append("  ");
    let mut pct = String::new();
    push_one_decimal(&mut pct, share_of(size, total));
    proof {
        assert(pct@ =~= one_decimal(share_tenths(size as nat, total as nat)));
    }
    push_pad_left(out, pct.as_str(), 6);
    out.append("%  ");
    push_pad_left(out, count(files).as_str(), 8);
    out.append("\n");
    proof {
        assert(label@ =~= digest_type_label(key@));
        assert(final(out)@ =~= old(out)@ + type_row(digest_type_label(key@), size as int, files as int, total as int));
    }
}

/// Which file types account for the space under `node`.
pub fn type_breakdown(tree: &Tree, node: NodeId, use_alloc: bool, limit: usize) -> (s: String)
    requires
        tree.wf(),
        node < tree.node_total(),
    ensures
        s@ == type_breakdown_text(tree, node as int, use_alloc, limit),
{
    proof {
        reveal_strlit("(no files)\n");
        reveal_strlit("TYPE               SIZE   SHARE     FILES\n");
        reveal_strlit("... ");
        reveal_strlit(" more types not shown\n");
    }
    let breakdown = tree.extension_breakdown(node);
    let ghost d = tree.subtree_order(node as int);
    let ghost ks = tree.type_keys(d);
    if breakdown.len() == 0 {
        return String::from_str("(no files)\n");
    }
    let n = breakdown.len();
    let (sizes, names) = type_columns(tree, &breakdown, use_alloc, Ghost(d), Ghost(ks));
    let none: Vec<u64> = Vec::new();
    let order = rank_positions(sizes.as_slice(), none.as_slice(), &names, TieBreak::NameAsc);
    let ghost ord = order@.map_values(|p: usize| p as int);
    proof {
        assert(none@ =~= Seq::<u64>::empty());
        assert(ord == type_order(tree, d, ks, use_alloc));
        let all = all_positions(n as int);
        assert(all.no_duplicates());
        lemma_rest_sums_fit(tree, node as int, ks, all, use_alloc);
    }
    let ghost all = all_positions(n as int);
    let mut total: u64 = 0;
    let mut j: usize = 0;
    while j < n
        invariant
            n == breakdown@.len() == ks.len() == sizes@.len(),
            breakdown_ok(tree, breakdown@, d, ks),
            sizes@ == Seq::new(ks.len(), |q: int| type_size(tree, d, ks[q], use_alloc) as u64),
            all == all_positions(n as int),
            0 <= sizes_sum(tree, d, ks, all, use_alloc) <= u64::MAX,
            j <= n,
            total == sizes_sum(tree, d, ks, all.take(j as int), use_alloc),
        decreases n - j,
    {
        proof {
            assert(all.take(j + 1).drop_last() =~= all.take(j as int));
            assert(all.take(j + 1).last() == j as int);
            lemma_sums_prefix(tree, d, ks, all, j + 1, use_alloc);
            assert(breakdown@[j as int].0@ == ks[j as int]);
        }
        total = total + sizes[j];
        j = j + 1;
    }
    proof {
        assert(all.take(n as int) =~= all);
    }
    let shown = if limit < n {
        limit
    } else {
        n
    };
    let mut out = String::from_str("TYPE               SIZE   SHARE     FILES\n");
    let ghost head = out@;
    let mut k: usize = 0;
    while k < shown
        invariant
            n == breakdown@.len() == ks.len() == order@.len(),
            breakdown_ok(tree, breakdown@, d, ks),
            forall|q: int| 0 <= q < order@.len() ==> #[trigger] order@[q] < n,
            ord == order@.map_values(|p: usize| p as int),
            shown <= n,
            k <= shown,
            out@ == head + type_rows(tree, d, ks, ord.take(k as int), use_alloc, total as int),
        decreases shown - k,
    {
        let p = order[k];
        let stat = breakdown[p].1;
        let size = if use_alloc {
            stat.alloc
        } else {
            stat.logical
        };
        proof {
            assert(breakdown@[p as int].0@ == ks[p as int]);
        }
        write_type_row(&mut out, breakdown[p].0.as_str(), size, stat.files as u64, total);
        proof {
            assert(ord.take(k + 1).drop_last() =~= ord.take(k as int));
            assert(ord.take(k + 1).last() == p as int);
        }
        k = k + 1;
    }
    let ghost mid = out@;
    if n > limit {
        out.append("... ");
        out.append(count((n - limit) as u64).as_str());
        out.append(" more types not shown\n");
    }
    proof {
        assert(out@ =~= "TYPE               SIZE   SHARE     FILES\n"@ + type_rows(tree, d, ks, ord.take(shown as int), use_alloc, total as int) + if n > limit {
            "... "@ + grouped(decimal((n - limit) as nat)) + " more types not shown\n"@
        } else {
            Seq::empty()
        });
    }
    clamp(out)
}

/// The nodes of `s` whose lowercased name holds `needle`.
pub open spec fn name_hits(t: &Tree, s: Seq<NodeId>, needle: Seq<char>) -> Seq<NodeId>
    decreases s.len(),
{
    if s.len() == 0 {
        Seq::empty()
    } else {
        let rest = name_hits(t, s.drop_last(), needle);
        if occurs_in(needle, lowercase_of(t.name_at(s.last() as int))) {
            rest.push(s.last())
        } else {
            rest
        }
    }
}

proof fn lemma_name_hits_members(t: &Tree, s: Seq<NodeId>, nl: Seq<char>)
    ensures
        forall|x: NodeId|
            #[trigger] name_hits(t, s, nl).contains(x) <==> s.contains(x) && occurs_in(
                nl,
                lowercase_of(t.name_at(x as int)),
            ),
    decreases s.len(),
{
    if s.len() > 0 {
        let init = s.drop_last();
        lemma_name_hits_members(t, init, nl);
        assert(s =~= init.push(s.last()));
        assert forall|x: NodeId| #[trigger] s.contains(x) <==> init.contains(x) || x == s.last() by {
            if s.contains(x) {
                let k = choose|k: int| 0 <= k < s.len() && s[k] == x;
                if k < s.len() - 1 {
                    assert(init[k] == x);
                }
            }
            if init.contains(x) {
                let k = choose|k: int| 0 <= k < init.len() && init[k] == x;
                assert(s[k] == x);
            }
            if x == s.last() {
                assert(s[s.len() - 1] == x);
            }
        }
        let rest = name_hits(t, init, nl);
        assert forall|x: NodeId| #[trigger] rest.push(s.last()).contains(x) <==> rest.contains(x) || x
            == s.last() by {
            if rest.push(s.last()).contains(x) {
                let k = choose|k: int| 0 <= k < rest.len() + 1 && rest.push(s.last())[k] == x;
                if k < rest.len() {
                    assert(rest[k] == x);
                }
            }
            if rest.contains(x) {
                let k = choose|k: int| 0 <= k < rest.len() && rest[k] == x;
                assert(rest.push(s.last())[k] == x);
            }
            if x == s.last() {
                assert(rest.push(s.last())[rest.len() as int] == x);
            }
        }
    }
}

/// A name search hits exactly the nodes under `root` whose lowercased
/// name holds the lowercased search term; so the case of a name or of
/// the term never changes what is found.
pub proof fn law_name_search_ignores_case(t: &Tree, root: int, needle: Seq<char>, x: NodeId)
    ensures
        name_hits(t, t.subtree_order(root), lowercase_of(needle)).contains(x) <==> t.subtree_order(
            root,
        ).contains(x) && occurs_in(lowercase_of(needle), lowercase_of(t.name_at(x as int))),
{
    lemma_name_hits_members(t, t.subtree_order(root), lowercase_of(needle));
}

/// One line of a name search: the path cut to 44 characters and the size.
pub open spec fn hit_line(t: &Tree, id: int, use_alloc: bool) -> Seq<char> {
    pad_right(truncate_text(path_text(t, id, "/"@), 44), 44) + "  "@ + pad_left(
        bytes_text(size_in(t, id, use_alloc) as nat),
        10,
    ) + "\n"@
}

pub open spec fn hit_lines(t: &Tree, ids: Seq<NodeId>, use_alloc: bool) -> Seq<char>
    decreases ids.len(),
{
    if ids.len() == 0 {
        Seq::empty()
    } else {
        hit_lines(t, ids.drop_last(), use_alloc) + hit_line(t, ids.last() as int, use_alloc)
    }
}

/// The nodes under `root` whose name holds `needle` (case-insensitively),
/// largest first, with their count and combined size.
pub open spec fn find_by_name_text(t: &Tree, root: int, needle: Seq<char>, use_alloc: bool, limit: usize) -> Seq<char> {
    let nl = lowercase_of(needle);
    if nl.len() == 0 {
        "(empty search term)\n"@
    } else {
        let hits = name_hits(t, t.subtree_order(root), nl);
        if hits.len() == 0 {
            "Nothing under this folder matches \""@ + nl + "\".\n"@
        } else {
            let n = hits.len() as int;
            let shown = if (limit as int) < n {
                limit as int
            } else {
                n
            };
            clamp_text(
                grouped(decimal(n as nat)) + " matches, "@ + bytes_text(
                    sum_vals(hits, sizes_in(t, use_alloc)) as nat,
                ) + " combined\nPATH                                            SIZE\n"@ + hit_lines(
                    t,
                    by_size(t, hits, use_alloc).take(shown),
                    use_alloc,
                ) + if n > (limit as int) {
                    more_line((n - limit) as nat)
                } else {
                    Seq::empty()
                },
            )
        }
    }
}

proof fn lemma_sum_vals_wide(s: Seq<NodeId>, vals: Seq<u64>)
    ensures
        0 <= sum_vals(s, vals) <= s.len() * 0x1_0000_0000_0000_0000,
    decreases s.len(),
{
    if s.len() > 0 {
        lemma_sum_vals_wide(s.drop_last(), vals);
    }
}

fn write_hit_line(out: &mut String, tree: &Tree, id: NodeId, use_alloc: bool)
    requires
        tree.wf(),
        id < tree.node_total(),
    ensures
        final(out)@ == old(out)@ + hit_line(tree, id as int, use_alloc),
{
    proof {
        reveal_strlit("  ");
        reveal_strlit("\n");
        reveal_strlit("/");
    }
    let p = tree.path(id, "/");
    let cut = truncate_name(p.as_str(), 44);
    push_pad_right(out, cut.as_str(), 44);
    out.append("  ");
    push_pad_left(out, bytes(size_of(tree, id, use_alloc)).as_str(), 10);
    out.append("\n");
    proof {
        assert(final(out)@ =~= old(out)@ + hit_line(tree, id as int, use_alloc));
    }
}

/// Finds the nodes whose name holds `needle` (case-insensitively),
/// largest first: answers "how much is node_modules costing me across the
/// disk".
pub fn find_by_name(tree: &Tree, root: NodeId, needle: &str, use_alloc: bool, limit: usize) -> (s: String)
    requires
        tree.wf(),
        root < tree.node_total(),
    ensures
        s@ == find_by_name_text(tree, root as int, needle@, use_alloc, limit),
{
    proof {
        reveal_strlit("(empty search term)\n");
        reveal_strlit("Nothing under this folder matches \"");
        reveal_strlit("\".\n");
        reveal_strlit(" matches, ");
        reveal_strlit(" combined\nPATH                                            SIZE\n");
    }
    let nl = to_lowercase(needle);
    let nc = chars_of(nl.as_str());
    if nc.len() == 0 {
        return String::from_str("(empty search term)\n");
    }
    let ids = collect_subtree(tree, root);
    let ghost d = ids@;
    let mut hits: Vec<NodeId> = Vec::new();
    let mut i: usize = 0;
    while i < ids.len()
        invariant
            tree.wf(),
            d == ids@,
            forall|k: int| 0 <= k < d.len() ==> #[trigger] d[k] < tree.node_total(),
            d.len() <= tree.node_total(),
            nc@ == lowercase_of(needle@),
            i <= d.len(),
            hits@ == name_hits(tree, d.take(i as int), nc@),
            hits@.len() <= i,
            forall|k: int| 0 <= k < hits@.len() ==> #[trigger] hits@[k] < tree.node_total(),
        decreases d.len() - i,
    {
        let id = ids[i];
        proof {
            assert(d.take(i + 1).drop_last() =~= d.take(i as int));
            assert(d.take(i + 1).last() == id);
        }
        let lower = to_lowercase(tree.name(id));
        let lc = chars_of(lower.as_str());
        if chars_contain(lc.as_slice(), nc.as_slice()) {
            hits.push(id);
        }
        i = i + 1;
    }
    proof {
        assert(d.take(d.len() as int) =~= d);
    }
    if hits.len() == 0 {
        let mut out = String::from_str("Nothing under this folder matches \"");
        out.append(nl.as_str());
        out.append("\".\n");
        return out;
    }
    let n = hits.len();
    let ghost sz = sizes_in(tree, use_alloc);
    let mut combined: u128 = 0;
    let mut j: usize = 0;
    proof {
        tree.law_rank_bounded(root as int);
    }
    while j < n
        invariant
            tree.wf(),
            n == hits@.len(),
            n <= tree.node_total() <= u32::MAX + 1,
            forall|k: int| 0 <= k < hits@.len() ==> #[trigger] hits@[k] < tree.node_total(),
            sz == sizes_in(tree, use_alloc),
            j <= n,
            combined == sum_vals(hits@.take(j as int), sz),
            combined <= j * 0x1_0000_0000_0000_0000,
        decreases n - j,
    {
        proof {
            assert(hits@.take(j + 1).drop_last() =~= hits@.take(j as int));
            assert(hits@.take(j + 1).last() == hits@[j as int]);
            tree.lemma_seqs_agree(hits@[j as int] as int);
        }
        combined = combined + size_of(tree, hits[j], use_alloc) as u128;
        j = j + 1;
    }
    proof {
        assert(hits@.take(n as int) =~= hits@);
        vstd::arithmetic::power2::lemma2_to64();
        vstd::arithmetic::power2::lemma2_to64_rest();
        vstd::arithmetic::power2::lemma_pow2_adds(64, 36);
        assert(combined <= 0x1_0000_0000 * 0x1_0000_0000_0000_0000) by (nonlinear_arith)
            requires
                combined <= n * 0x1_0000_0000_0000_0000,
                n <= 0x1_0000_0000,
        ;
    }
    let order = sort_by_size(tree, &hits, use_alloc);
    let shown = if limit < n {
        limit
    } else {
        n
    };
    let mut out = count(n as u64);
    out.append(" matches, ");
    out.append(bytes_wide(combined).as_str());
    out.append(" combined\nPATH                                            SIZE\n");
    let ghost head = out@;
    let mut k: usize = 0;
    while k < shown
        invariant
            tree.wf(),
            order@.len() == n,
            forall|q: int| 0 <= q < order@.len() ==> #[trigger] order@[q] < tree.node_total(),
            shown <= n,
            k <= shown,
            out@ == head + hit_lines(tree, order@.take(k as int), use_alloc),
        decreases shown - k,
    {
        let id = order[k];
        write_hit_line(&mut out, tree, id, use_alloc);
        proof {
            assert(order@.take(k + 1).drop_last() =~= order@.take(k as int));
            assert(order@.take(k + 1).last() == id);
        }
        k = k + 1;
    }
    if n > limit {
        write_more_line(&mut out, (n - limit) as u64);
    }
    proof {
        assert(out@ =~= grouped(decimal(n as nat)) + " matches, "@ + bytes_text(combined as nat)
            + " combined\nPATH                                            SIZE\n"@ + hit_lines(tree, order@.take(shown as int), use_alloc) + if n > limit {
            more_line((n - limit) as nat)
        } else {
            Seq::empty()
        });
    }
    clamp(out)
}

/// Detail on one node: name, path, kind and size; for a folder its file
/// count and number of children; and what the classifier knows of it.
pub open spec fn node_detail_text(t: &Tree, id: int, use_alloc: bool) -> Seq<char> {
    t.name_at(id) + ": "@ + path_text(t, id, "/"@) + "\nkind: "@ + if t.is_dir_at(id) {
        "folder"@
    } else {
        "file"@
    } + "\nsize: "@ + bytes_text(size_in(t, id, use_alloc) as nat) + "\n"@ + if t.is_dir_at(id) {
        "contains: "@ + grouped(decimal(t.files_at(id) as nat)) + " files\ndirect children: "@ + grouped(
            decimal(t.kids(id).len()),
        ) + "\n"@
    } else {
        Seq::empty()
    } + match classify_spec(t.name_at(id), t.is_dir_at(id)) {
        Some((category, caution, _)) => "category: "@ + category + "\ncaution: "@ + caution + "\n"@,
        None => Seq::empty(),
    }
}

/// Detail on one node, for checking a specific thing before recommending
/// anything about it.
pub fn node_detail(tree: &Tree, id: NodeId, use_alloc: bool) -> (s: String)
    requires
        tree.wf(),
        id < tree.node_total(),
    ensures
        s@ == node_detail_text(tree, id as int, use_alloc),
{
    proof {
        reveal_strlit(": ");
        reveal_strlit("\nkind: ");
        reveal_strlit("folder");
        reveal_strlit("file");
        reveal_strlit("\nsize: ");
        reveal_strlit("\n");
        reveal_strlit("contains: ");
        reveal_strlit(" files\ndirect children: ");
        reveal_strlit("category: ");
        reveal_strlit("\ncaution: ");
        reveal_strlit("/");
    }
    let is_dir = tree.is_dir(id);
    let mut out = String::from_str(tree.name(id));
    out.append(": ");
    out.append(tree.path(id, "/").as_str());
    out.append("\nkind: ");
    if is_dir {
        out.append("folder");
    } else {
        out.append("file");
    }
    out.append("\nsize: ");
    out.append(bytes(size_of(tree, id, use_alloc)).as_str());
    out.append("\n");
    let ghost a = out@;
    if is_dir {
        out.append("contains: ");
        out.append(count(tree.file_count(id) as u64).as_str());
        out.append(" files\ndirect children: ");
        out.append(count(tree.children(id).len() as u64).as_str());
        out.append("\n");
    }
    let ghost b = out@;
    match classify(tree.name(id), is_dir) {
        Some(v) => {
            out.append("category: ");
            out.append(v.category);
            out.append("\ncaution: ");
            out.append(v.caution);
            out.append("\n");
        },
        None => {},
    }
    proof {
        assert(out@ =~= node_detail_text(tree, id as int, use_alloc));
    }
    out
}

/// Whether some node on the path above `u` is one of `hits`.
pub open spec fn chain_hit(t: &Tree, u: int, hits: Seq<NodeId>) -> bool
    decreases t.rank_at(u),
    when t.wf() && 0 <= u < t.node_total()
{
    if u == 0 {
        false
    } else {
        proof {
            t.law_parents_rank_below_children(u);
        }
        hits.contains(t.parent_at(u) as NodeId) || chain_hit(t, t.parent_at(u), hits)
    }
}

/// The classified nodes among `s`.
pub open spec fn known_nodes(t: &Tree, s: Seq<NodeId>) -> Seq<NodeId>
    decreases s.len(),
{
    if s.len() == 0 {
        Seq::empty()
    } else {
        let rest = known_nodes(t, s.drop_last());
        let x = s.last() as int;
        if classify_spec(t.name_at(x), t.is_dir_at(x)).is_some() {
            rest.push(s.last())
        } else {
            rest
        }
    }
}

/// The nodes of `s` with no other node of `hits` above them.
pub open spec fn outermost(t: &Tree, s: Seq<NodeId>, hits: Seq<NodeId>) -> Seq<NodeId>
    decreases s.len(),
{
    if s.len() == 0 {
        Seq::empty()
    } else {
        let rest = outermost(t, s.drop_last(), hits);
        if !chain_hit(t, s.last() as int, hits) {
            rest.push(s.last())
        } else {
            rest
        }
    }
}

/// Whether the classifier calls node `id` generally safe.
pub open spec fn is_safe(t: &Tree, id: int) -> bool {
    match classify_spec(t.name_at(id), t.is_dir_at(id)) {
        Some((_, _, safe)) => safe,
        None => false,
    }
}

/// The reclaimable list marks a node generally safe, and counts it in the
/// safe total, exactly when it is a folder whose lowercased name is one
/// of [`generally_safe_folder_names`]: never a file, never Downloads.
pub proof fn law_safe_marks_only_regenerable_folders(t: &Tree, id: int)
    ensures
        is_safe(t, id) <==> t.is_dir_at(id) && generally_safe_folder_names().contains(
            lowercase_of(t.name_at(id)),
        ),
{
    law_generally_safe_exactly_the_regenerable_folders(t.name_at(id));
}

/// Total size of the generally safe nodes among `s`.
pub open spec fn safe_total(t: &Tree, s: Seq<NodeId>, use_alloc: bool) -> int
    decreases s.len(),
{
    if s.len() == 0 {
        0
    } else {
        safe_total(t, s.drop_last(), use_alloc) + if is_safe(t, s.last() as int) {
            size_in(t, s.last() as int, use_alloc) as int
        } else {
            0
        }
    }
}

/// One entry of the reclaimable list.
pub open spec fn candidate_text(t: &Tree, id: int, use_alloc: bool) -> Seq<char> {
    match classify_spec(t.name_at(id), t.is_dir_at(id)) {
        Some((category, caution, safe)) => bytes_text(size_in(t, id, use_alloc) as nat) + "  ["@ + if safe {
            "generally safe"@
        } else {
            "DO NOT DELETE without reading the note"@
        } + "]\n  path: "@ + path_text(t, id, "/"@) + "\n  "@ + category + " — "@ + caution + "\n"@,
        None => Seq::empty(),
    }
}

pub open spec fn candidate_lines(t: &Tree, ids: Seq<NodeId>, use_alloc: bool) -> Seq<char>
    decreases ids.len(),
{
    if ids.len() == 0 {
        Seq::empty()
    } else {
        candidate_lines(t, ids.drop_last(), use_alloc) + candidate_text(t, ids.last() as int, use_alloc)
    }
}

/// Everything the classifier recognises under `root`, largest first,
/// safe and unsafe alike (clearly marked); a match inside another match
/// is left out so its bytes are not counted twice.
pub open spec fn reclaimable_text(t: &Tree, root: int, use_alloc: bool, limit: usize) -> Seq<char> {
    let hits = known_nodes(t, t.subtree_order(root));
    if hits.len() == 0 {
        "No well-known cache, build-output or system folders found in this scan.\n"@
    } else {
        let kept = outermost(t, by_size(t, hits, use_alloc), hits);
        let n = kept.len() as int;
        let shown = if (limit as int) < n {
            limit as int
        } else {
            n
        };
        clamp_text(
            "Recognised "@ + grouped(decimal(n as nat)) + " candidates. Generally-safe ones total "@
                + bytes_text(safe_total(t, kept, use_alloc) as nat) + ".\n\n"@ + candidate_lines(
                t,
                kept.take(shown),
                use_alloc,
            ) + if n > (limit as int) {
                more_line((n - limit) as nat)
            } else {
                Seq::empty()
            },
        )
    }
}

fn contains_id(ids: &Vec<NodeId>, x: NodeId) -> (r: bool)
    ensures
        r == ids@.contains(x),
{
    let mut i: usize = 0;
    while i < ids.len()
        invariant
            i <= ids@.len(),
            forall|k: int| 0 <= k < i ==> ids@[k] != x,
        decreases ids@.len() - i,
    {
        if ids[i] == x {
            return true;
        }
        i = i + 1;
    }
    false
}

fn has_hit_above(tree: &Tree, id: NodeId, hits: &Vec<NodeId>) -> (r: bool)
    requires
        tree.wf(),
        id < tree.node_total(),
    ensures
        r == chain_hit(tree, id as int, hits@),
{
    let mut cur = id;
    loop
        invariant
            tree.wf(),
            cur < tree.node_total(),
            chain_hit(tree, id as int, hits@) == chain_hit(tree, cur as int, hits@),
        decreases tree.rank_at(cur as int),
    {
        match tree.parent_of(cur) {
            None => {
                return false;
            },
            Some(p) => {
                proof {
                    tree.law_parents_rank_below_children(cur as int);
                    tree.law_rank_bounded(cur as int);
                    assert(p as int == tree.parent_at(cur as int));
                    assert(chain_hit(tree, cur as int, hits@) == (hits@.contains(p)
                        || chain_hit(tree, p as int, hits@)));
                }
                if contains_id(hits, p) {
                    return true;
                }
                cur = p;
            },
        }
    }
}

proof fn lemma_known_len(t: &Tree, s: Seq<NodeId>)
    ensures
        known_nodes(t, s).len() <= s.len(),
        forall|k: int| 0 <= k < known_nodes(t, s).len() ==> s.contains(#[trigger] known_nodes(t, s)[k]),
    decreases s.len(),
{
    if s.len() > 0 {
        lemma_known_len(t, s.drop_last());
        let r = known_nodes(t, s.drop_last());
        assert forall|k: int| 0 <= k < known_nodes(t, s).len() implies s.contains(#[trigger] known_nodes(t, s)[k]) by {
            if k < r.len() {
                let j = choose|j: int| 0 <= j < s.drop_last().len() && s.drop_last()[j] == r[k];
                assert(s[j] == s.drop_last()[j]);
            } else {
                assert(s[s.len() - 1] == s.last());
            }
        }
    }
}

proof fn lemma_outermost_len(t: &Tree, s: Seq<NodeId>, hits: Seq<NodeId>)
    ensures
        outermost(t, s, hits).len() <= s.len(),
    decreases s.len(),
{
    if s.len() > 0 {
        lemma_outermost_len(t, s.drop_last(), hits);
    }
}

proof fn lemma_safe_total_wide(t: &Tree, s: Seq<NodeId>, use_alloc: bool)
    ensures
        0 <= safe_total(t, s, use_alloc) <= s.len() * 0x1_0000_0000_0000_0000,
    decreases s.len(),
{
    if s.len() > 0 {
        lemma_safe_total_wide(t, s.drop_last(), use_alloc);
    }
}

fn write_candidate(out: &mut String, tree: &Tree, id: NodeId, use_alloc: bool)
    requires
        tree.wf(),
        id < tree.node_total(),
    ensures
        final(out)@ == old(out)@ + candidate_text(tree, id as int, use_alloc),
{
    proof {
        reveal_strlit("  [");
        reveal_strlit("generally safe");
        reveal_strlit("DO NOT DELETE without reading the note");
        reveal_strlit("]\n  path: ");
        reveal_strlit("\n  ");
        reveal_strlit(" — ");
        reveal_strlit("\n");
        reveal_strlit("/");
    }
    match classify(tree.name(id), tree.is_dir(id)) {
        Some(v) => {
            out.append(bytes(size_of(tree, id, use_alloc)).as_str());
            out.append("  [");
            if v.generally_safe {
                out.append("generally safe");
            } else {
                out.append("DO NOT DELETE without reading the note");
            }
            out.append("]\n  path: ");
            out.append(tree.path(id, "/").as_str());
            out.append("\n  ");
            out.append(v.category);
            out.append(" — ");
            out.append(v.caution);
            out.append("\n");
        },
        None => {},
    }
    proof {
        assert(final(out)@ =~= old(out)@ + candidate_text(tree, id as int, use_alloc));
    }
}

proof fn lemma_known_nodes(t: &Tree, s: Seq<NodeId>)
    ensures
        forall|x: NodeId|
            known_nodes(t, s).contains(x) <==> (s.contains(x) && classify_spec(
                t.name_at(x as int),
                t.is_dir_at(x as int),
            ) is Some),
        s.no_duplicates() ==> known_nodes(t, s).no_duplicates(),
    decreases s.len(),
{
    if s.len() > 0 {
        let d = s.drop_last();
        lemma_known_nodes(t, d);
        let rest = known_nodes(t, d);
        let f = known_nodes(t, s);
        assert forall|x: NodeId| f.contains(x) <==> (s.contains(x) && classify_spec(
            t.name_at(x as int),
            t.is_dir_at(x as int),
        ) is Some) by {
            if f.contains(x) {
                let k = choose|k: int| 0 <= k < f.len() && f[k] == x;
                if k < rest.len() {
                    assert(rest[k] == x);
                    assert(rest.contains(x));
                    assert(d.contains(x));
                    let j = choose|j: int| 0 <= j < d.len() && d[j] == x;
                    assert(s[j] == x);
                } else {
                    assert(s[s.len() - 1] == x);
                }
            }
            if s.contains(x) && classify_spec(t.name_at(x as int), t.is_dir_at(x as int)) is Some {
                let j = choose|j: int| 0 <= j < s.len() && s[j] == x;
                if j < d.len() {
                    assert(d[j] == x);
                    assert(d.contains(x));
                    assert(rest.contains(x));
                    let k = choose|k: int| 0 <= k < rest.len() && rest[k] == x;
                    assert(f[k] == x);
                } else {
                    assert(f[f.len() - 1] == x);
                }
            }
        }
        if s.no_duplicates() {
            assert(d.no_duplicates()) by {
                assert forall|i: int, j: int| 0 <= i < d.len() && 0 <= j < d.len() && i != j implies d[i] != d[j] by {
                    assert(d[i] == s[i] && d[j] == s[j]);
                }
            }
            if classify_spec(t.name_at(s.last() as int), t.is_dir_at(s.last() as int)) is Some {
                assert(!rest.contains(s.last())) by {
                    if rest.contains(s.last()) {
                        assert(d.contains(s.last()));
                        let j = choose|j: int| 0 <= j < d.len() && d[j] == s.last();
                        assert(s[j] == s[s.len() - 1]);
                    }
                }
                assert forall|i: int, j: int| 0 <= i < f.len() && 0 <= j < f.len() && i != j implies f[i] != f[j] by {
                    if i < rest.len() && j < rest.len() {
                        assert(f[i] == rest[i] && f[j] == rest[j]);
                    } else if i < rest.len() {
                        assert(f[i] == rest[i]);
                    } else {
                        assert(f[j] == rest[j]);
                    }
                }
            }
        }
    }
}

proof fn lemma_outermost(t: &Tree, s: Seq<NodeId>, hits: Seq<NodeId>, use_alloc: bool)
    requires
        t.wf(),
        forall|k: int| 0 <= k < s.len() ==> #[trigger] s[k] < t.node_total(),
    ensures
        forall|x: NodeId|
            outermost(t, s, hits).contains(x) <==> (s.contains(x) && !chain_hit(t, x as int, hits)),
        s.no_duplicates() ==> outermost(t, s, hits).no_duplicates(),
        (forall|i: int, j: int|
            #![trigger s[i], s[j]]
            0 <= i < j < s.len() ==> size_in(t, s[i] as int, use_alloc) >= size_in(t, s[j] as int, use_alloc))
            ==> (forall|i: int, j: int|
            #![trigger outermost(t, s, hits)[i], outermost(t, s, hits)[j]]
            0 <= i < j < outermost(t, s, hits).len() ==> size_in(t, outermost(t, s, hits)[i] as int, use_alloc)
                >= size_in(t, outermost(t, s, hits)[j] as int, use_alloc)),
    decreases s.len(),
{
    if s.len() > 0 {
        let d = s.drop_last();
        assert forall|k: int| 0 <= k < d.len() implies #[trigger] d[k] < t.node_total() by {
            assert(d[k] == s[k]);
        }
        lemma_outermost(t, d, hits, use_alloc);
        let rest = outermost(t, d, hits);
        let f = outermost(t, s, hits);
        let y = s.last();
        assert forall|x: NodeId| f.contains(x) <==> (s.contains(x) && !chain_hit(t, x as int, hits)) by {
            if f.contains(x) {
                let k = choose|k: int| 0 <= k < f.len() && f[k] == x;
                if k < rest.len() {
                    assert(rest[k] == x);
                    assert(rest.contains(x));
                    assert(d.contains(x));
                    let j = choose|j: int| 0 <= j < d.len() && d[j] == x;
                    assert(s[j] == x);
                } else {
                    assert(s[s.len() - 1] == x);
                }
            }
            if s.contains(x) && !chain_hit(t, x as int, hits) {
                let j = choose|j: int| 0 <= j < s.len() && s[j] == x;
                if j < d.len() {
                    assert(d[j] == x);
                    assert(d.contains(x));
                    assert(rest.contains(x));
                    let k = choose|k: int| 0 <= k < rest.len() && rest[k] == x;
                    assert(f[k] == x);
                } else {
                    assert(f[f.len() - 1] == x);
                }
            }
        }
        if s.no_duplicates() {
            assert(d.no_duplicates()) by {
                assert forall|i: int, j: int| 0 <= i < d.len() && 0 <= j < d.len() && i != j implies d[i] != d[j] by {
                    assert(d[i] == s[i] && d[j] == s[j]);
                }
            }
            if !chain_hit(t, y as int, hits) {
                assert(!rest.contains(y)) by {
                    if rest.contains(y) {
                        assert(d.contains(y));
                        let j = choose|j: int| 0 <= j < d.len() && d[j] == y;
                        assert(s[j] == s[s.len() - 1]);
                    }
                }
                assert forall|i: int, j: int| 0 <= i < f.len() && 0 <= j < f.len() && i != j implies f[i] != f[j] by {
                    if i < rest.len() && j < rest.len() {
                        assert(f[i] == rest[i] && f[j] == rest[j]);
                    } else if i < rest.len() {
                        assert(f[i] == rest[i]);
                    } else {
                        assert(f[j] == rest[j]);
                    }
                }
            }
        }
        if forall|i: int, j: int|
            #![trigger s[i], s[j]]
            0 <= i < j < s.len() ==> size_in(t, s[i] as int, use_alloc) >= size_in(t, s[j] as int, use_alloc) {
            assert forall|i: int, j: int| #![trigger d[i], d[j]] 0 <= i < j < d.len() implies size_in(t, d[i] as int, use_alloc)
                >= size_in(t, d[j] as int, use_alloc) by {
                assert(d[i] == s[i] && d[j] == s[j]);
            }
            assert forall|i: int, j: int| #![trigger f[i], f[j]] 0 <= i < j < f.len() implies size_in(t, f[i] as int, use_alloc)
                >= size_in(t, f[j] as int, use_alloc) by {
                if j < rest.len() {
                    assert(f[i] == rest[i] && f[j] == rest[j]);
                } else {
                    assert(f[i] == rest[i]);
                    assert(f[j] == y);
                    assert(rest.contains(rest[i]));
                    assert(d.contains(rest[i]));
                    let k = choose|k: int| 0 <= k < d.len() && d[k] == rest[i];
                    assert(s[k] == d[k]);
                    assert(s[s.len() - 1] == y);
                }
            }
        }
    }
}

/// The reclaimable report lists outermost candidates only: its rows are
/// the first of an order holding every classified node at or below `root`
/// that has no classified node above it in the scan, each once and
/// nothing else, largest first, so no bytes are counted twice.
pub proof fn law_reclaimable_lists_the_outermost_candidates(t: &Tree, root: int, use_alloc: bool)
    requires
        t.wf(),
        0 <= root < t.node_total(),
    ensures
        ({
            let hits = known_nodes(t, t.subtree_order(root));
            let kept = outermost(t, by_size(t, hits, use_alloc), hits);
            &&& kept.no_duplicates()
            &&& forall|x: NodeId|
                kept.contains(x) <==> ((x as int) < t.node_total() && t.is_ancestor(root, x as int)
                    && classify_spec(t.name_at(x as int), t.is_dir_at(x as int)) is Some && !chain_hit(
                    t,
                    x as int,
                    hits,
                ))
            &&& forall|i: int, j: int|
                #![trigger kept[i], kept[j]]
                0 <= i < j < kept.len() ==> size_in(t, kept[i] as int, use_alloc) >= size_in(
                    t,
                    kept[j] as int,
                    use_alloc,
                )
        }),
{
    let w = t.subtree_order(root);
    t.law_subtree_order_is_distinct(root);
    lemma_known_nodes(t, w);
    let hits = known_nodes(t, w);
    lemma_by_size(t, hits, use_alloc);
    let o = by_size(t, hits, use_alloc);
    assert forall|k: int| 0 <= k < o.len() implies #[trigger] o[k] < t.node_total() by {
        assert(o.contains(o[k]));
        assert(hits.contains(o[k]));
        assert(w.contains(o[k]));
        let j = choose|j: int| 0 <= j < w.len() && w[j] == o[k];
        assert(w[j] < t.node_total());
    }
    lemma_outermost(t, o, hits, use_alloc);
    let kept = outermost(t, o, hits);
    assert forall|x: NodeId| kept.contains(x) <==> ((x as int) < t.node_total() && t.is_ancestor(root, x as int)
        && classify_spec(t.name_at(x as int), t.is_dir_at(x as int)) is Some && !chain_hit(t, x as int, hits)) by {
        t.law_subtree_order_is_exactly_the_subtree(root, x as int);
        assert(o.contains(x) <==> hits.contains(x));
        if w.contains(x) {
            let k = choose|k: int| 0 <= k < w.len() && w[k] == x;
            assert(w[k] < t.node_total());
        }
    }
}

/// Walks the scan for everything the classifier recognises, largest
/// first, and reports safe and unsafe candidates alike, each clearly
/// marked. A match nested in another is left out.
pub fn reclaimable(tree: &Tree, root: NodeId, use_alloc: bool, limit: usize) -> (s: String)
    requires
        tree.wf(),
        root < tree.node_total(),
    ensures
        s@ == reclaimable_text(tree, root as int, use_alloc, limit),
{
    proof {
        reveal_strlit("No well-known cache, build-output or system folders found in this scan.\n");
        reveal_strlit("Recognised ");
        reveal_strlit(" candidates. Generally-safe ones total ");
        reveal_strlit(".\n\n");
    }
    let ids = collect_subtree(tree, root);
    let ghost d = ids@;
    let mut hits: Vec<NodeId> = Vec::new();
    let mut i: usize = 0;
    while i < ids.len()
        invariant
            tree.wf(),
            d == ids@,
            forall|k: int| 0 <= k < d.len() ==> #[trigger] d[k] < tree.node_total(),
            i <= d.len(),
            hits@ == known_nodes(tree, d.take(i as int)),
            forall|k: int| 0 <= k < hits@.len() ==> #[trigger] hits@[k] < tree.node_total(),
        decreases d.len() - i,
    {
        let id = ids[i];
        proof {
            assert(d.take(i + 1).drop_last() =~= d.take(i as int));
            assert(d.take(i + 1).last() == id);
        }
        if classify(tree.name(id), tree.is_dir(id)).is_some() {
            hits.push(id);
        }
        i = i + 1;
    }
    proof {
        assert(d.take(d.len() as int) =~= d);
        lemma_known_len(tree, d);
    }
    if hits.len() == 0 {
        return String::from_str("No well-known cache, build-output or system folders found in this scan.\n");
    }
    let order = sort_by_size(tree, &hits, use_alloc);
    let mut kept: Vec<NodeId> = Vec::new();
    let mut j: usize = 0;
    while j < order.len()
        invariant
            tree.wf(),
            forall|k: int| 0 <= k < order@.len() ==> #[trigger] order@[k] < tree.node_total(),
            j <= order@.len(),
            kept@ == outermost(tree, order@.take(j as int), hits@),
            forall|k: int| 0 <= k < kept@.len() ==> #[trigger] kept@[k] < tree.node_total(),
        decreases order@.len() - j,
    {
        let id = order[j];
        proof {
            assert(order@.take(j + 1).drop_last() =~= order@.take(j as int));
            assert(order@.take(j + 1).last() == id);
        }
        if !has_hit_above(tree, id, &hits) {
            kept.push(id);
        }
        j = j + 1;
    }
    proof {
        assert(order@.take(order@.len() as int) =~= order@);
        lemma_outermost_len(tree, order@, hits@);
        tree.law_subtree_order_is_distinct(root as int);
        tree.law_rank_bounded(root as int);
    }
    let n = kept.len();
    let mut safe: u128 = 0;
    let mut k: usize = 0;
    while k < n
        invariant
            tree.wf(),
            n == kept@.len(),
            n <= u32::MAX + 1,
            forall|q: int| 0 <= q < kept@.len() ==> #[trigger] kept@[q] < tree.node_total(),
            k <= n,
            safe == safe_total(tree, kept@.take(k as int), use_alloc),
        decreases n - k,
    {
        let id = kept[k];
        proof {
            assert(kept@.take(k + 1).drop_last() =~= kept@.take(k as int));
            assert(kept@.take(k + 1).last() == id);
            lemma_safe_total_wide(tree, kept@.take(k as int), use_alloc);
            assert(safe <= 0x1_0000_0000 * 0x1_0000_0000_0000_0000) by (nonlinear_arith)
                requires
                    safe <= k * 0x1_0000_0000_0000_0000,
                    k <= 0x1_0000_0000,
            ;
        }
        match classify(tree.name(id), tree.is_dir(id)) {
            Some(v) => {
                if v.generally_safe {
                    safe = safe + size_of(tree, id, use_alloc) as u128;
                }
            },
            None => {},
        }
        k = k + 1;
    }
    proof {
        assert(kept@.take(n as int) =~= kept@);
        lemma_safe_total_wide(tree, kept@, use_alloc);
        vstd::arithmetic::power2::lemma2_to64();
        vstd::arithmetic::power2::lemma2_to64_rest();
        vstd::arithmetic::power2::lemma_pow2_adds(64, 36);
        assert(safe <= 0x1_0000_0000 * 0x1_0000_0000_0000_0000) by (nonlinear_arith)
            requires
                safe <= n * 0x1_0000_0000_0000_0000,
                n <= 0x1_0000_0000,
        ;
    }
    let shown = if limit < n {
        limit
    } else {
        n
    };
    let mut out = String::from_str("Recognised ");
    out.append(count(n as u64).as_str());
    out.append(" candidates. Generally-safe ones total ");
    out.append(bytes_wide(safe).as_str());
    out.append(".\n\n");
    let ghost head = out@;
    let mut m: usize = 0;
    while m < shown
        invariant
            tree.wf(),
            n == kept@.len(),
            forall|q: int| 0 <= q < kept@.len() ==> #[trigger] kept@[q] < tree.node_total(),
            shown <= n,
            m <= shown,
            out@ == head + candidate_lines(tree, kept@.take(m as int), use_alloc),
        decreases shown - m,
    {
        let id = kept[m];
        write_candidate(&mut out, tree, id, use_alloc);
        proof {
            assert(kept@.take(m + 1).drop_last() =~= kept@.take(m as int));
            assert(kept@.take(m + 1).last() == id);
        }
        m = m + 1;
    }
    if n > limit {
        write_more_line(&mut out, (n - limit) as u64);
    }
    proof {
        assert(out@ =~= "Recognised "@ + grouped(decimal(n as nat)) + " candidates. Generally-safe ones total "@
            + bytes_text(safe as nat) + ".\n\n"@ + candidate_lines(tree, kept@.take(shown as int), use_alloc) + if n > limit {
            more_line((n - limit) as nat)
        } else {
            Seq::empty()
        });
    }
    clamp(out)
}

/// The volume line of the digest.
pub open spec fn drive_line(v: &VolumeInfo) -> Seq<char> {
    let used = used_of(v.total_bytes, v.free_bytes);
    "Drive: "@ + v.label@ + " ("@ + v.filesystem@ + ")  capacity "@ + bytes_text(v.total_bytes as nat)
        + "  used "@ + bytes_text(used as nat) + " ("@ + percent_text(used as nat, v.total_bytes as nat)
        + ")  free "@ + bytes_text(v.free_bytes as nat) + "\n"@
}

/// The orientation block: the drive, the scanned root and its totals,
/// the largest items at the root and the largest file types.
pub open spec fn scan_digest_text(
    t: &Tree,
    root: int,
    volume: Option<&VolumeInfo>,
    use_alloc: bool,
    top_folders: usize,
    top_types: usize,
) -> Seq<char> {
    "SCAN SUMMARY\n"@ + match volume {
        Some(v) => drive_line(v),
        None => Seq::empty(),
    } + "Scanned root: "@ + t.name_at(root) + "  indexed "@ + bytes_text(size_in(t, root, use_alloc) as nat)
        + "  "@ + grouped(decimal(t.files_at(root) as nat)) + " files in "@ + grouped(
        decimal(dir_count(t, t.subtree_order(root)) as nat),
    ) + " folders\n"@ + "\nLARGEST ITEMS AT THE ROOT\n"@ + folder_listing_text(t, root, use_alloc, top_folders)
        + "\nLARGEST FILE TYPES\n"@ + type_breakdown_text(t, root, use_alloc, top_types)
}

/// The drive line ends with the used bytes (the capacity less the free
/// bytes, none when the drive reports more free than its capacity) and
/// their share of the capacity, then the free bytes.
pub proof fn law_drive_line_shows_the_used_share(v: &VolumeInfo)
    ensures
        ({
            let cap: nat = v.total_bytes as nat;
            let free: nat = v.free_bytes as nat;
            let used: nat = if free <= cap {
                (cap - free) as nat
            } else {
                0
            };
            let tail = "  used "@ + bytes_text(used) + " ("@ + percent_text(used, cap) + ")  free "@
                + bytes_text(free) + "\n"@;
            let line = drive_line(v);
            tail.len() <= line.len() && line.subrange(line.len() - tail.len(), line.len() as int) == tail
        }),
{
    let cap: nat = v.total_bytes as nat;
    let free: nat = v.free_bytes as nat;
    let used: nat = if free <= cap {
        (cap - free) as nat
    } else {
        0
    };
    assert(used == used_of(v.total_bytes, v.free_bytes) as nat);
    let head = "Drive: "@ + v.label@ + " ("@ + v.filesystem@ + ")  capacity "@ + bytes_text(cap);
    let tail = "  used "@ + bytes_text(used) + " ("@ + percent_text(used, cap) + ")  free "@
        + bytes_text(free) + "\n"@;
    let line = drive_line(v);
    assert(line =~= head + tail);
    assert(line.subrange(line.len() - tail.len(), line.len() as int) =~= tail);
}

fn write_drive_line(out: &mut String, v: &VolumeInfo)
    ensures
        final(out)@ == old(out)@ + drive_line(v),
{
    proof {
        reveal_strlit("Drive: ");
        reveal_strlit(" (");
        reveal_strlit(")  capacity ");
        reveal_strlit("  used ");
        reveal_strlit(")  free ");
        reveal_strlit("\n");
    }
    let used = v.used_bytes();
    out.append("Drive: ");
    out.append(v.label.as_str());
    out.append(" (");
    out.append(v.filesystem.as_str());
    out.append(")  capacity ");
    out.append(bytes(v.total_bytes).as_str());
    out.append("  used ");
    out.append(bytes(used).as_str());
    out.append(" (");
    out.append(percent(used, v.total_bytes).as_str());
    out.append(")  free ");
    out.append(bytes(v.free_bytes).as_str());
    out.append("\n");
    proof {
        assert(final(out)@ =~= old(out)@ + drive_line(v));
    }
}

/// The one-time orientation block for the system prompt, so "what is
/// taking up space" can be answered without any tool call.
pub fn scan_digest(
    tree: &Tree,
    root: NodeId,
    volume: Option<&VolumeInfo>,
    use_alloc: bool,
    top_folders: usize,
    top_types: usize,
) -> (s: String)
    requires
        tree.wf(),
        root < tree.node_total(),
    ensures
        s@ == scan_digest_text(tree, root as int, volume, use_alloc, top_folders, top_types),
{
    proof {
        reveal_strlit("SCAN SUMMARY\n");
        reveal_strlit("Scanned root: ");
        reveal_strlit("  indexed ");
        reveal_strlit("  ");
        reveal_strlit(" files in ");
        reveal_strlit(" folders\n");
        reveal_strlit("\nLARGEST ITEMS AT THE ROOT\n");
        reveal_strlit("\nLARGEST FILE TYPES\n");
    }
    let mut out = String::from_str("SCAN SUMMARY\n");
    if let Some(v) = volume {
        write_drive_line(&mut out, v);
    }
    let ghost a = out@;
    out.append("Scanned root: ");
    out.append(tree.name(root));
    out.append("  indexed ");
    out.append(bytes(size_of(tree, root, use_alloc)).as_str());
    out.append("  ");
    out.append(count(tree.file_count(root) as u64).as_str());
    out.append(" files in ");
    out.append(count(count_dirs(tree, root)).as_str());
    out.append(" folders\n");
    let ghost b = out@;
    out.append("\nLARGEST ITEMS AT THE ROOT\n");
    out.append(folder_listing(tree, root, use_alloc, top_folders).as_str());
    out.append("\nLARGEST FILE TYPES\n");
    out.append(type_breakdown(tree, root, use_alloc, top_types).as_str());
    proof {
        let dl = match volume {
            Some(v) => drive_line(v),
            None => Seq::empty(),
        };
        assert(a =~= "SCAN SUMMARY\n"@ + dl);
        assert(out@ =~= scan_digest_text(tree, root as int, volume, use_alloc, top_folders, top_types));
    }
    out
}
} // verus!
