use vstd::prelude::*;
use vstd::string::StringExecFns;

verus! {

/// One object of a topology document: optional `name` and `display_name`,
/// and the entries of its `children` object, each a child name with the
/// child's own object, in the document's order.
pub struct JsonNode {
    pub name: Option<String>,
    pub display_name: Option<String>,
    pub children: Vec<(String, JsonNode)>,
}

/// The display name of a node described by `j`: its own, else `new node`.
pub open spec fn display_of(j: JsonNode) -> Seq<char> {
    match j.display_name {
        Some(s) => s@,
        None => "new node"@,
    }
}

/// The name of a tree root described by `j`: its own, else `new_application`.
pub open spec fn root_name_of(j: JsonNode) -> Seq<char> {
    match j.name {
        Some(s) => s@,
        None => "new_application"@,
    }
}

impl JsonNode {
    /// An object with no fields and no children.
    pub fn empty() -> (r: JsonNode)
        ensures
            r.name is None,
            r.display_name is None,
            r.children@.len() == 0,
    {
        JsonNode { name: None, display_name: None, children: Vec::new() }
    }

    /// The display name that a node built from this object receives.
    pub fn display_name_or_default(&self) -> (r: String)
        ensures
            r@ == display_of(*self),
    {
        match &self.display_name {
            Some(s) => s.clone(),
            None => String::from_str("new node"),
        }
    }

    /// The name that a tree root built from this object receives.
    pub fn root_name_or_default(&self) -> (r: String)
        ensures
            r@ == root_name_of(*self),
    {
        match &self.name {
            Some(s) => s.clone(),
            None => String::from_str("new_application"),
        }
    }
}

/// Number of entries among the first `k` of `kids` and, below each of
/// them, in all nested `children` objects.
pub open spec fn entries_upto(kids: Seq<(String, JsonNode)>, k: int) -> nat
    decreases kids, k,
{
    if k <= 0 || k > kids.len() {
        0
    } else {
        let child = kids[k - 1].1;
        entries_upto(kids, k - 1) + 1 + entries_upto(child.children@, child.children@.len() as int)
    }
}

/// Total number of entries across all nested `children` objects of `j`.
pub open spec fn total_entries(j: JsonNode) -> nat {
    entries_upto(j.children@, j.children@.len() as int)
}

/// The number of entries among `kids` and all nested `children` objects,
/// or `None` when it exceeds `u64::MAX`.
pub fn count_entries(kids: &Vec<(String, JsonNode)>) -> (r: Option<u64>)
    ensures
        match r {
            Some(n) => n == entries_upto(kids@, kids@.len() as int),
            None => entries_upto(kids@, kids@.len() as int) > u64::MAX,
        },
    decreases kids@,
{
    let mut acc: u64 = 0;
    let mut i: usize = 0;
    while i < kids.len()
        invariant
            i <= kids@.len(),
            acc == entries_upto(kids@, i as int),
        decreases kids@.len() - i,
    {
        proof {
            assert(decreases_to!(kids@ => kids@[i as int]));
        }
        let sub = match count_entries(&kids[i].1.children) {
            Some(n) => n,
            None => {
                proof {
                    lemma_entries_monotone(kids@, i as int + 1, kids@.len() as int);
                }
                return None;
            },
        };
        if sub >= u64::MAX - acc {
            proof {
                lemma_entries_monotone(kids@, i as int + 1, kids@.len() as int);
            }
            return None;
        }
        acc = acc + 1 + sub;
        i = i + 1;
    }
    Some(acc)
}

/// Counting more entries never gives fewer.
pub proof fn lemma_entries_monotone(kids: Seq<(String, JsonNode)>, a: int, b: int)
    requires
        0 <= a <= b <= kids.len(),
    ensures
        entries_upto(kids, a) <= entries_upto(kids, b),
    decreases b - a,
{
    if a < b {
        lemma_entries_monotone(kids, a, b - 1);
    }
}

} // verus!
