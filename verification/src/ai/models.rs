//! The model picker's list: every model the service offers, the free and
//! tool-capable ones first. Fetching and decoding the list, and reading
//! whether a price is zero, is the application's part.

use vstd::prelude::*;
use vstd::string::StringExecFns;

use crate::sort::{rank_positions, ranked, TieBreak};
use crate::text::{chars_of, lowercase_of, to_lowercase};

verus! {

broadcast use vstd::string::group_string_axioms;

/// One model as the service lists it.
pub struct ModelEntry {
    pub id: String,
    pub name: Option<String>,
    pub context_length: Option<u64>,
    /// Both its prompt and its completion price read as zero.
    pub is_free: bool,
    pub supported_parameters: Option<Vec<String>>,
}

/// One row of the picker.
pub struct ModelDto {
    pub id: String,
    pub name: String,
    pub context_length: u64,
    pub is_free: bool,
    pub supports_tools: bool,
}

/// The name shown for a model: its own, or its id when it has none.
pub open spec fn shown_name(e: &ModelEntry) -> Seq<char> {
    match e.name {
        Some(n) => n@,
        None => e.id@,
    }
}

/// Whether the model lists `tools` among its parameters.
pub open spec fn takes_tools(e: &ModelEntry) -> bool {
    match e.supported_parameters {
        Some(ps) => exists|i: int| 0 <= i < ps@.len() && (#[trigger] ps@[i])@ == "tools"@,
        None => false,
    }
}

/// The picker's rank of a model: free before paid, then tool-capable
/// before not.
pub open spec fn model_rank(e: &ModelEntry) -> u64 {
    if e.is_free && takes_tools(e) {
        3
    } else if e.is_free {
        2
    } else if takes_tools(e) {
        1
    } else {
        0
    }
}

/// The order of the list: higher rank first, then by lowercased name,
/// and otherwise as listed.
pub open spec fn model_order(es: Seq<ModelEntry>) -> Seq<int> {
    ranked(
        es.len() as int,
        Seq::new(es.len(), |i: int| model_rank(&es[i])),
        Seq::empty(),
        Seq::new(es.len(), |i: int| lowercase_of(shown_name(&es[i]))),
        TieBreak::NameAsc,
    )
}

/// Whether `d` is the picker row for `e`.
pub open spec fn row_of(d: &ModelDto, e: &ModelEntry) -> bool {
    &&& d.id@ == e.id@
    &&& d.name@ == shown_name(e)
    &&& d.context_length == match e.context_length {
        Some(n) => n,
        None => 0,
    }
    &&& d.is_free == e.is_free
    &&& d.supports_tools == takes_tools(e)
}

fn is_tools(p: &String) -> (b: bool)
    ensures
        b == (p@ == "tools"@),
{
    *p == String::from_str("tools")
}

fn supports_tools(e: &ModelEntry) -> (b: bool)
    ensures
        b == takes_tools(e),
{
    match &e.supported_parameters {
        None => false,
        Some(ps) => {
            let mut i: usize = 0;
            while i < ps.len()
                invariant
                    e.supported_parameters == Some(*ps),
                    i <= ps@.len(),
                    forall|j: int| 0 <= j < i ==> (#[trigger] ps@[j])@ != "tools"@,
                decreases ps@.len() - i,
            {
                if is_tools(&ps[i]) {
                    proof {
                        assert((ps@[i as int])@ == "tools"@);
                        let v = e.supported_parameters.unwrap();
                        assert(v@[i as int]@ == "tools"@);
                        assert(takes_tools(e));
                    }
                    return true;
                }
                i = i + 1;
            }
            false
        },
    }
}

fn copy_row(d: &ModelDto) -> (c: ModelDto)
    ensures
        c.id@ == d.id@,
        c.name@ == d.name@,
        c.context_length == d.context_length,
        c.is_free == d.is_free,
        c.supports_tools == d.supports_tools,
{
    ModelDto {
        id: d.id.clone(),
        name: d.name.clone(),
        context_length: d.context_length,
        is_free: d.is_free,
        supports_tools: d.supports_tools,
    }
}

fn row(e: &ModelEntry) -> (d: ModelDto)
    ensures
        row_of(&d, e),
{
    let name = match &e.name {
        Some(n) => n.clone(),
        None => e.id.clone(),
    };
    ModelDto {
        id: e.id.clone(),
        name,
        context_length: match e.context_length {
            Some(n) => n,
            None => 0,
        },
        is_free: e.is_free,
        supports_tools: supports_tools(e),
    }
}

/// The picker's rows: free and tool-capable models first, then by name
/// regardless of case, and otherwise in the order the service listed them.
pub fn model_list(entries: Vec<ModelEntry>) -> (out: Vec<ModelDto>)
    ensures
        out@.len() == entries@.len(),
        forall|k: int|
            0 <= k < out@.len() ==> row_of(
                &#[trigger] out@[k],
                &entries@[model_order(entries@)[k]],
            ),
{
    let n = entries.len();
    let mut keys: Vec<u64> = Vec::new();
    let mut names: Vec<Vec<char>> = Vec::new();
    let mut rows: Vec<ModelDto> = Vec::new();
    let mut i: usize = 0;
    while i < n
        invariant
            n == entries@.len(),
            i <= n,
            keys@ =~= Seq::new(i as nat, |j: int| model_rank(&entries@[j])),
            names@.map_values(|v: Vec<char>| v@) =~= Seq::new(
                i as nat,
                |j: int| lowercase_of(shown_name(&entries@[j])),
            ),
            names@.len() == i,
            rows@.len() == i,
            forall|j: int| 0 <= j < i ==> row_of(&#[trigger] rows@[j], &entries@[j]),
        decreases n - i,
    {
        let e = &entries[i];
        let d = row(e);
        let tools: u64 = if d.supports_tools {
            1
        } else {
            0
        };
        let free: u64 = if e.is_free {
            2
        } else {
            0
        };
        keys.push(free + tools);
        let lower = to_lowercase(d.name.as_str());
        let cs = chars_of(lower.as_str());
        let ghost before = names@;
        names.push(cs);
        proof {
            assert forall|j: int| 0 <= j < i + 1 implies names@.map_values(|v: Vec<char>| v@)[j]
                == lowercase_of(shown_name(&entries@[j])) by {
                if j < i {
                    assert(names@[j] == before[j]);
                    assert(before.map_values(|v: Vec<char>| v@)[j] == lowercase_of(
                        shown_name(&entries@[j]),
                    ));
                }
            }
        }
        rows.push(d);
        i = i + 1;
    }
    let no_second: Vec<u64> = Vec::new();
    let order = rank_positions(keys.as_slice(), no_second.as_slice(), &names, TieBreak::NameAsc);
    let ghost r = order@.map_values(|p: usize| p as int);
    proof {
        assert(no_second@ =~= Seq::<u64>::empty());
        assert(r == model_order(entries@));
    }
    let mut out: Vec<ModelDto> = Vec::new();
    let mut m: usize = 0;
    while m < n
        invariant
            n == rows@.len(),
            n == entries@.len(),
            order@.len() == n,
            forall|k: int| 0 <= k < n ==> #[trigger] order@[k] < n,
            r == order@.map_values(|p: usize| p as int),
            r == model_order(entries@),
            forall|j: int| 0 <= j < n ==> row_of(&#[trigger] rows@[j], &entries@[j]),
            m <= n,
            out@.len() == m,
            forall|k: int| 0 <= k < m ==> row_of(&#[trigger] out@[k], &entries@[r[k]]),
        decreases n - m,
    {
        let p = order[m];
        let d = copy_row(&rows[p]);
        proof {
            assert(r[m as int] == p as int);
            assert(row_of(&rows@[p as int], &entries@[p as int]));
        }
        out.push(d);
        m = m + 1;
    }
    out
}

} // verus!
