//! Typed directory-listing entries and the exact two-key order in which a
//! listing is returned: directories before files, and names ascending within
//! each kind.

use vstd::prelude::*;

verus! {

/// One child of a listed directory. `path` is the joined path of `name`
/// under the listed directory; `is_dir` tells the two kinds apart.
#[derive(Debug)]
pub struct FileEntry {
    pub name: String,
    pub path: String,
    pub is_dir: bool,
}

/// Lexicographic order on character sequences, by code point: the order in
/// which names within one kind are listed. The empty sequence comes first.
pub open spec fn lex_le(a: Seq<char>, b: Seq<char>) -> bool
    decreases a.len(),
{
    if a.len() == 0 {
        true
    } else if b.len() == 0 {
        false
    } else if (a[0] as u32) < (b[0] as u32) {
        true
    } else if (a[0] as u32) > (b[0] as u32) {
        false
    } else {
        lex_le(a.skip(1), b.skip(1))
    }
}

/// `lex_le` is total: any two names are comparable.
pub proof fn lemma_lex_le_total(a: Seq<char>, b: Seq<char>)
    ensures
        lex_le(a, b) || lex_le(b, a),
    decreases a.len(),
{
    if a.len() != 0 && b.len() != 0 && (a[0] as u32) == (b[0] as u32) {
        lemma_lex_le_total(a.skip(1), b.skip(1));
    }
}

/// `lex_le` is transitive.
pub proof fn lemma_lex_le_trans(a: Seq<char>, b: Seq<char>, c: Seq<char>)
    requires
        lex_le(a, b),
        lex_le(b, c),
    ensures
        lex_le(a, c),
    decreases a.len(),
{
    if a.len() != 0 && b.len() != 0 && c.len() != 0 && (a[0] as u32) == (b[0] as u32) && (b[0]
        as u32) == (c[0] as u32) {
        lemma_lex_le_trans(a.skip(1), b.skip(1), c.skip(1));
    }
}

/// The listing order: a directory sorts before a file; two entries of the
/// same kind sort by name.
pub open spec fn entry_le(a: FileEntry, b: FileEntry) -> bool {
    if a.is_dir == b.is_dir {
        lex_le(a.name@, b.name@)
    } else {
        a.is_dir
    }
}

/// `entry_le` is total.
pub proof fn lemma_entry_le_total(a: FileEntry, b: FileEntry)
    ensures
        entry_le(a, b) || entry_le(b, a),
{
    if a.is_dir == b.is_dir {
        lemma_lex_le_total(a.name@, b.name@);
    }
}

/// `entry_le` is transitive.
pub proof fn lemma_entry_le_trans(a: FileEntry, b: FileEntry, c: FileEntry)
    requires
        entry_le(a, b),
        entry_le(b, c),
    ensures
        entry_le(a, c),
{
    if a.is_dir == b.is_dir && b.is_dir == c.is_dir {
        lemma_lex_le_trans(a.name@, b.name@, c.name@);
    }
}

/// A listing is sorted when every pair of entries in order satisfies
/// `entry_le`: every directory precedes every file, and names ascend within
/// each kind.
pub open spec fn sorted_entries(s: Seq<FileEntry>) -> bool {
    forall|i: int, j: int| 0 <= i <= j < s.len() ==> entry_le(s[i], s[j])
}

/// Law: in a sorted listing every directory-entry precedes every
/// file-entry, and within one kind the names ascend lexicographically.
pub proof fn lemma_sorted_listing_shape(s: Seq<FileEntry>)
    requires
        sorted_entries(s),
    ensures
        forall|i: int, j: int| 0 <= i < j < s.len() && s[j].is_dir ==> s[i].is_dir,
        forall|i: int, j: int|
            0 <= i < j < s.len() && s[i].is_dir == s[j].is_dir ==> lex_le(s[i].name@, s[j].name@),
{
    assert forall|i: int, j: int| 0 <= i < j < s.len() && s[j].is_dir implies s[i].is_dir by {
        assert(entry_le(s[i], s[j]));
    }
    assert forall|i: int, j: int|
        0 <= i < j < s.len() && s[i].is_dir == s[j].is_dir implies lex_le(
        s[i].name@,
        s[j].name@,
    ) by {
        assert(entry_le(s[i], s[j]));
    }
}

/// Compares two names in the listing order.
pub fn lex_le_exec(a: &str, b: &str) -> (r: bool)
    ensures
        r == lex_le(a@, b@),
{
    let alen = a.unicode_len();
    let blen = b.unicode_len();
    let mut i: usize = 0;
    proof {
        assert(a@.skip(0) =~= a@);
        assert(b@.skip(0) =~= b@);
    }
    loop
        invariant
            i <= alen,
            i <= blen,
            alen == a@.len(),
            blen == b@.len(),
            lex_le(a@, b@) == lex_le(a@.skip(i as int), b@.skip(i as int)),
        decreases alen - i,
    {
        if i == alen {
            return true;
        }
        if i == blen {
            return false;
        }
        let ca = a.get_char(i);
        let cb = b.get_char(i);
        if (ca as u32) < (cb as u32) {
            return true;
        }
        if (ca as u32) > (cb as u32) {
            return false;
        }
        proof {
            assert(a@.skip(i as int).skip(1) =~= a@.skip(i + 1));
            assert(b@.skip(i as int).skip(1) =~= b@.skip(i + 1));
        }
        i = i + 1;
    }
}

/// Compares two entries in the listing order.
pub fn entry_le_exec(a: &FileEntry, b: &FileEntry) -> (r: bool)
    ensures
        r == entry_le(*a, *b),
{
    if a.is_dir == b.is_dir {
        lex_le_exec(a.name.as_str(), b.name.as_str())
    } else {
        a.is_dir
    }
}

/// Sorts a listing into the order a directory listing is returned in:
/// directories first, then files, names ascending within each kind. The
/// result holds exactly the entries given, rearranged.
pub fn sort_entries(entries: Vec<FileEntry>) -> (r: Vec<FileEntry>)
    ensures
        sorted_entries(r@),
        r@.to_multiset() == entries@.to_multiset(),
{
    broadcast use vstd::seq_lib::group_to_multiset_ensures;
    broadcast use vstd::multiset::group_multiset_axioms;

    let mut rest = entries;
    let mut r: Vec<FileEntry> = Vec::new();
    proof {
        assert(r@.to_multiset().add(rest@.to_multiset()) =~= entries@.to_multiset());
    }
    while rest.len() > 0
        invariant
            sorted_entries(r@),
            forall|i: int, j: int|
                0 <= i < r@.len() && 0 <= j < rest@.len() ==> entry_le(r@[i], rest@[j]),
            r@.to_multiset().add(rest@.to_multiset()) == entries@.to_multiset(),
        decreases rest@.len(),
    {
        // Find the index of a minimal remaining entry.
        let mut m: usize = 0;
        let mut k: usize = 1;
        proof {
            lemma_entry_le_total(rest@[0], rest@[0]);
        }
        while k < rest.len()
            invariant
                m < k,
                k <= rest@.len(),
                1 <= rest@.len(),
                forall|j: int| 0 <= j < k ==> entry_le(rest@[m as int], rest@[j]),
            decreases rest@.len() - k,
        {
            if entry_le_exec(&rest[k], &rest[m]) {
                proof {
                    lemma_entry_le_total(rest@[k as int], rest@[m as int]);
                    assert forall|j: int| 0 <= j < k + 1 implies entry_le(
                        rest@[k as int],
                        rest@[j],
                    ) by {
                        if j < k {
                            lemma_entry_le_trans(rest@[k as int], rest@[m as int], rest@[j]);
                        } else {
                            lemma_entry_le_total(rest@[k as int], rest@[k as int]);
                        }
                    }
                }
                m = k;
            } else {
                proof {
                    lemma_entry_le_total(rest@[k as int], rest@[m as int]);
                }
            }
            k = k + 1;
        }
        let ghost old_r = r@;
        let ghost old_rest = rest@;
        let x = rest.remove(m);
        r.push(x);
        proof {
            assert forall|i: int, j: int| 0 <= i <= j < r@.len() implies entry_le(
                r@[i],
                r@[j],
            ) by {
                if j == r@.len() - 1 && i < j {
                    assert(entry_le(r@[i], old_rest[m as int]));
                }
            }
            assert forall|i: int, j: int|
                0 <= i < r@.len() && 0 <= j < rest@.len() implies entry_le(r@[i], rest@[j]) by {
                let j0 = if j < m { j } else { j + 1 };
                assert(rest@[j] == old_rest[j0]);
                if i < r@.len() - 1 {
                    assert(entry_le(r@[i], old_rest[j0]));
                } else {
                    assert(entry_le(old_rest[m as int], old_rest[j0]));
                }
            }
            vstd::seq_lib::to_multiset_remove(old_rest, m as int);
            vstd::seq_lib::to_multiset_build(old_r, old_rest[m as int]);
            vstd::seq_lib::to_multiset_contains(old_rest, old_rest[m as int]);
            assert(old_rest.contains(old_rest[m as int]));
            assert(r@.to_multiset().add(rest@.to_multiset()) =~= entries@.to_multiset());
        }
    }
    proof {
        assert(r@.to_multiset().add(rest@.to_multiset()) =~= r@.to_multiset());
    }
    r
}

} // verus!
