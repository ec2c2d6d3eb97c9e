//! The change stamp: a small file that tells whether the graph on disk changed.
use vstd::prelude::*;

use crate::text;

verus! {

/// The name of the stamp file in the directory of a repository's index.
pub const STAMP_FILE: &'static str = "index.stamp";

/// What a stamp says: who indexed, when, and how large the graph is. The time makes the stamp of
/// each run its own.
#[derive(Debug, PartialEq, Eq)]
pub struct IndexStamp {
    pub engine_id: String,
    pub indexed_at_nanos: u128,
    pub nodes: usize,
    pub edges: usize,
}

impl IndexStamp {
    /// The stamp of a graph of so many nodes and edges, indexed at this time by this engine.
    pub fn new(engine_id: &str, indexed_at_nanos: u128, nodes: usize, edges: usize) -> (r: IndexStamp)
        ensures
            r.engine_id@ == engine_id@,
            r.indexed_at_nanos == indexed_at_nanos,
            r.nodes == nodes,
            r.edges == edges,
    {
        IndexStamp { engine_id: engine_id.to_owned(), indexed_at_nanos, nodes, edges }
    }

    /// The name of the file that the stamp is written to before it replaces the one on disk: it
    /// differs between processes and between runs.
    pub fn temp_name(&self, process: u32) -> (r: String)
        ensures
            r@ == temp_name_of(process as nat, self.indexed_at_nanos as nat),
    {
        let pid = text::decimal_of(process as u128);
        let nanos = text::decimal_of(self.indexed_at_nanos);
        let mut s = ".".to_owned();
        s.append(STAMP_FILE);
        s.append(".tmp.");
        s.append(pid.as_str());
        s.append(".");
        s.append(nanos.as_str());
        s
    }
}

/// The name of the temporary stamp file of a process at a time.
pub open spec fn temp_name_of(process: nat, nanos: nat) -> Seq<char> {
    "."@ + STAMP_FILE@ + ".tmp."@ + text::decimal(process) + "."@ + text::decimal(nanos)
}

/// The temporary files of two processes, or of two runs of one, have different names.
pub proof fn law_temp_names_differ(p: nat, a: nat, q: nat, b: nat)
    requires
        p != q || a != b,
    ensures
        temp_name_of(p, a) != temp_name_of(q, b),
{
    let head = "."@ + STAMP_FILE@ + ".tmp."@;
    let x = text::decimal(p);
    let y = text::decimal(q);
    let m = temp_name_of(p, a);
    let n = temp_name_of(q, b);
    let h = head.len() as int;
    reveal_strlit(".");
    text::lemma_decimal_digits(p);
    text::lemma_decimal_digits(q);
    assert(m =~= head + x + "."@ + text::decimal(a));
    assert(n =~= head + y + "."@ + text::decimal(b));
    if m == n {
        if x.len() < y.len() {
            assert(m[h + x.len()] == '.');
            assert(n[h + x.len()] == y[x.len() as int]);
        } else if y.len() < x.len() {
            assert(n[h + y.len()] == '.');
            assert(m[h + y.len()] == x[y.len() as int]);
        } else {
            assert(m.subrange(h, h + x.len()) =~= x);
            assert(n.subrange(h, h + y.len()) =~= y);
            text::lemma_decimal_injective(p, q);
            assert(m.skip(h + x.len() + 1) =~= text::decimal(a));
            assert(n.skip(h + y.len() + 1) =~= text::decimal(b));
            text::lemma_decimal_injective(a, b);
        }
    }
}

} // verus!
