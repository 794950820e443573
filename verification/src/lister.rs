//! Directory listing entries and their ordering: entries are sorted by name,
//! lexicographically by character value, before they are handed back.
use vstd::multiset::Multiset;
use vstd::prelude::*;
use vstd::string::*;

verus! {

/// An immediate child of a directory: its name and whether it is itself a
/// directory.
pub struct FileEntry {
    pub name: String,
    pub is_dir: bool,
}

impl FileEntry {
    pub fn new(name: String, is_dir: bool) -> (r: FileEntry)
        ensures
            r.name == name,
            r.is_dir == is_dir,
    {
        FileEntry { name, is_dir }
    }
}

/// Lexicographic order on names, comparing characters by their code point:
/// `a` comes before `b` (or equals it) when at the first differing position
/// `a` has the smaller character, or `a` is a prefix of `b`.
pub open spec fn lex_leq(a: Seq<char>, b: Seq<char>) -> bool
    decreases a.len(),
{
    if a.len() == 0 {
        true
    } else if b.len() == 0 {
        false
    } else if (a[0] as u32) < (b[0] as u32) {
        true
    } else if (a[0] as u32) > (b[0] as u32) {
        false
    } else {
        lex_leq(a.drop_first(), b.drop_first())
    }
}

/// Any two names are ordered one way or the other.
proof fn lemma_lex_leq_total(a: Seq<char>, b: Seq<char>)
    ensures
        lex_leq(a, b) || lex_leq(b, a),
    decreases a.len(),
{
    if a.len() > 0 && b.len() > 0 && (a[0] as u32) == (b[0] as u32) {
        lemma_lex_leq_total(a.drop_first(), b.drop_first());
    }
}

/// The order on names is transitive.
proof fn lemma_lex_leq_trans(a: Seq<char>, b: Seq<char>, c: Seq<char>)
    requires
        lex_leq(a, b),
        lex_leq(b, c),
    ensures
        lex_leq(a, c),
    decreases a.len(),
{
    if a.len() > 0 && b.len() > 0 && c.len() > 0 && (a[0] as u32) == (b[0] as u32) && (b[0]
        as u32) == (c[0] as u32) {
        lemma_lex_leq_trans(a.drop_first(), b.drop_first(), c.drop_first());
    }
}

/// Whether the name `a` comes before `b` (or equals it) in the order the
/// listing uses.
fn name_leq(a: &str, b: &str) -> (r: bool)
    ensures
        r == lex_leq(a@, b@),
{
    let an: usize = a.unicode_len();
    let bn: usize = b.unicode_len();
    let mut i: usize = 0;
    proof {
        assert(a@.skip(0) =~= a@);
        assert(b@.skip(0) =~= b@);
    }
    loop
        invariant
            i <= an,
            i <= bn,
            an == a@.len(),
            bn == b@.len(),
            lex_leq(a@, b@) == lex_leq(a@.skip(i as int), b@.skip(i as int)),
        decreases an - i,
    {
        if i == an {
            proof {
                assert(a@.skip(i as int) =~= Seq::<char>::empty());
            }
            return true;
        }
        if i == bn {
            proof {
                assert(b@.skip(i as int) =~= Seq::<char>::empty());
            }
            return false;
        }
        let ca: char = a.get_char(i);
        let cb: char = b.get_char(i);
        if (ca as u32) < (cb as u32) {
            return true;
        }
        if (ca as u32) > (cb as u32) {
            return false;
        }
        proof {
            assert(a@.skip(i as int).drop_first() =~= a@.skip(i as int + 1));
            assert(b@.skip(i as int).drop_first() =~= b@.skip(i as int + 1));
        }
        i += 1;
    }
}

/// The entries stand in ascending name order.
pub open spec fn entries_sorted(s: Seq<FileEntry>) -> bool {
    forall|i: int, j: int|
        0 <= i < j < s.len() ==> #[trigger] lex_leq(s[i].name@, s[j].name@)
}

/// The first index of `sorted` whose entry's name comes strictly after
/// `e`'s, or the length when there is none: the place where `e` belongs.
fn insert_position(sorted: &Vec<FileEntry>, e: &FileEntry) -> (pos: usize)
    ensures
        pos <= sorted@.len(),
        forall|j: int| 0 <= j < pos ==> lex_leq(#[trigger] sorted@[j].name@, e.name@),
        pos < sorted@.len() ==> !lex_leq(sorted@[pos as int].name@, e.name@),
{
    let mut k: usize = 0;
    loop
        invariant
            k <= sorted@.len(),
            forall|j: int| 0 <= j < k ==> lex_leq(#[trigger] sorted@[j].name@, e.name@),
        decreases sorted@.len() - k,
    {
        if k == sorted.len() {
            return k;
        }
        let cur: &FileEntry = &sorted[k];
        if !name_leq(cur.name.as_str(), e.name.as_str()) {
            return k;
        }
        k += 1;
    }
}

/// Sort the entries of one directory by name, ascending, keeping exactly the
/// entries that were there: the listing's final order.
pub fn sort_entries(entries: &mut Vec<FileEntry>)
    ensures
        entries_sorted(final(entries)@),
        final(entries)@.to_multiset() == old(entries)@.to_multiset(),
        final(entries)@.len() == old(entries)@.len(),
{
    broadcast use vstd::seq_lib::to_multiset_insert;
    broadcast use vstd::seq_lib::to_multiset_remove;
    broadcast use vstd::multiset::group_multiset_axioms;

    let mut sorted: Vec<FileEntry> = Vec::new();
    proof {
        assert(sorted@.to_multiset().add(entries@.to_multiset()) =~= entries@.to_multiset())
            by {
            sorted@.to_multiset_ensures();
        }
    }
    while entries.len() > 0
        invariant
            entries_sorted(sorted@),
            sorted@.to_multiset().add(entries@.to_multiset()) == old(entries)@.to_multiset(),
            sorted@.len() + entries@.len() == old(entries)@.len(),
        decreases entries@.len(),
    {
        let ghost prev_entries = entries@;
        let ghost prev_sorted = sorted@;
        let e = entries.remove(0);
        let ghost ge = e;
        let pos = insert_position(&sorted, &e);
        sorted.insert(pos, e);
        proof {
            // The new sequence is still sorted around the inserted entry.
            if pos < prev_sorted.len() {
                lemma_lex_leq_total(prev_sorted[pos as int].name@, ge.name@);
            }
            let snew = prev_sorted.insert(pos as int, ge);
            assert forall|i: int, j: int| 0 <= i < j < snew.len() implies lex_leq(
                snew[i].name@,
                snew[j].name@,
            ) by {
                if i == pos && j > pos {
                    if j - 1 > pos {
                        lemma_lex_leq_trans(
                            ge.name@,
                            prev_sorted[pos as int].name@,
                            prev_sorted[j - 1].name@,
                        );
                    }
                }
            }
            // The entry moved from the input multiset to the sorted one.
            prev_entries.to_multiset_ensures();
            assert(prev_entries[0] == ge);
            assert(prev_entries.contains(ge));
            vstd::seq_lib::to_multiset_remove(prev_entries, 0);
            vstd::seq_lib::to_multiset_insert(prev_sorted, pos as int, ge);
            assert(entries@.to_multiset() == prev_entries.to_multiset().remove(ge));
            assert(sorted@.to_multiset() == prev_sorted.to_multiset().insert(ge));
            assert(sorted@.to_multiset().add(entries@.to_multiset())
                =~= prev_sorted.to_multiset().add(prev_entries.to_multiset()));
        }
    }
    proof {
        entries@.to_multiset_ensures();
        assert(entries@.to_multiset() =~= Multiset::<FileEntry>::empty());
        assert(sorted@.to_multiset() =~= old(entries)@.to_multiset());
        old(entries)@.to_multiset_ensures();
        sorted@.to_multiset_ensures();
    }
    *entries = sorted;
}

} // verus!
