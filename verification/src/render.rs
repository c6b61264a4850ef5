//! The tree printer.
//!
//! A snapshot renders depth-first, pre-order: each directory contributes one
//! line of `depth` horizontal tabs followed by its path and a newline, then
//! its children in stored order; a file line is indented one tab more than
//! its parent directory. `render` is the mathematical definition of the
//! output, and `MapSnapshot::print` is proved to append exactly it.

use vstd::prelude::*;

use crate::snapshot::EntryV;
use crate::snapshot::FsEntry;
use crate::snapshot::MapSnapshot;
use crate::snapshot::SnapV;
use crate::snapshot::entry_view;
use crate::snapshot::lemma_entries_view;

verus! {

/// `n` horizontal-tab bytes: the indentation of an entry at depth `n`.
pub open spec fn tabs(n: nat) -> Seq<u8> {
    Seq::new(n, |i: int| 9u8)
}

/// The rendered bytes of one snapshot node and its whole subtree.
pub open spec fn render(s: SnapV) -> Seq<u8>
    decreases s,
{
    tabs(s.depth) + s.directory + seq![10u8] + render_entries(s.children, s.depth + 1)
}

/// The rendered bytes of a sequence of children, in order; `file_indent` is
/// the indentation of the file lines, one more than the parent's depth.
pub open spec fn render_entries(es: Seq<EntryV>, file_indent: nat) -> Seq<u8>
    decreases es,
{
    if es.len() == 0 {
        Seq::empty()
    } else {
        render_entries(es.subrange(0, es.len() - 1), file_indent) + render_entry(
            es[es.len() - 1],
            file_indent,
        )
    }
}

/// The rendered bytes of one child entry.
pub open spec fn render_entry(e: EntryV, file_indent: nat) -> Seq<u8>
    decreases e,
{
    match e {
        EntryV::File(p) => tabs(file_indent) + p + seq![10u8],
        EntryV::Dir(d) => render(d),
    }
}

/// Appends `n` tab bytes.
fn push_tabs(out: &mut Vec<u8>, n: usize)
    ensures
        final(out)@ == old(out)@ + tabs(n as nat),
{
    let mut i: usize = 0;
    proof {
        assert(out@ =~= old(out)@ + tabs(0));
    }
    while i < n
        invariant
            i <= n,
            out@ == old(out)@ + tabs(i as nat),
        decreases n - i,
    {
        out.push(9u8);
        i += 1;
        proof {
            assert(out@ =~= old(out)@ + tabs(i as nat));
        }
    }
}

/// Appends a path's bytes.
fn push_bytes(out: &mut Vec<u8>, p: &Vec<u8>)
    ensures
        final(out)@ == old(out)@ + p@,
{
    let mut i: usize = 0;
    proof {
        assert(out@ =~= old(out)@ + p@.take(0));
    }
    while i < p.len()
        invariant
            i <= p.len(),
            out@ == old(out)@ + p@.take(i as int),
        decreases p.len() - i,
    {
        out.push(p[i]);
        i += 1;
        proof {
            assert(out@ =~= old(out)@ + p@.take(i as int));
        }
    }
    proof {
        assert(p@.take(p@.len() as int) =~= p@);
    }
}

impl MapSnapshot {
    /// Renders this snapshot into `out`, appending exactly `render` of its
    /// model: one line per entry, tab-indented by depth, depth-first, with
    /// children in stored order.
    pub fn print(&self, out: &mut Vec<u8>)
        ensures
            final(out)@ == old(out)@ + render(self@),
        decreases *self,
    {
        push_tabs(out, self.depth);
        push_bytes(out, &self.directory);
        out.push(10u8);
        let ghost header = tabs(self@.depth) + self@.directory + seq![10u8];
        proof {
            lemma_entries_view(self.children@);
            assert(out@ =~= old(out)@ + header);
            assert(self@.children.take(0) =~= Seq::<EntryV>::empty());
            assert(out@ =~= old(out)@ + header + render_entries(
                self@.children.take(0),
                self@.depth + 1,
            ));
        }
        let mut i: usize = 0;
        while i < self.children.len()
            invariant
                i <= self.children.len(),
                self@.children.len() == self.children@.len(),
                forall|j: int|
                    0 <= j < self.children@.len() ==> self@.children[j] == entry_view(
                        self.children@[j],
                    ),
                out@ == old(out)@ + header + render_entries(
                    self@.children.take(i as int),
                    self@.depth + 1,
                ),
            decreases self.children.len() - i,
        {
            let ghost out_pre = out@;
            match &self.children[i] {
                FsEntry::Dir(d) => {
                    d.print(out);
                    proof {
                        assert(self@.children[i as int] == EntryV::Dir(d@));
                        assert(render_entry(self@.children[i as int], self@.depth + 1) == render(
                            d@,
                        ));
                    }
                },
                FsEntry::File(p) => {
                    push_tabs(out, self.depth);
                    out.push(9u8);
                    push_bytes(out, p);
                    out.push(10u8);
                    proof {
                        assert(self@.children[i as int] == EntryV::File(p@));
                        assert(tabs(self@.depth).push(9u8) =~= tabs(self@.depth + 1));
                        assert(out@ =~= out_pre + (tabs(self@.depth + 1) + p@ + seq![10u8]));
                        assert(render_entry(self@.children[i as int], self@.depth + 1) == tabs(
                            self@.depth + 1,
                        ) + p@ + seq![10u8]);
                    }
                },
            }
            i += 1;
            proof {
                let cs = self@.children;
                assert(cs.take(i as int).subrange(0, i - 1) =~= cs.take(i - 1));
                assert(cs.take(i as int)[i - 1] == cs[i - 1]);
                assert(render_entries(cs.take(i as int), self@.depth + 1) == render_entries(
                    cs.take(i - 1),
                    self@.depth + 1,
                ) + render_entry(cs[i - 1], self@.depth + 1));
                assert(out@ =~= old(out)@ + header + render_entries(
                    cs.take(i as int),
                    self@.depth + 1,
                ));
            }
        }
        proof {
            let cs = self@.children;
            assert(cs.take(cs.len() as int) =~= cs);
            assert(out@ =~= old(out)@ + render(self@));
        }
    }
}

} // verus!
