//! Choosing the note files among the entries of a directory walk.

use vstd::prelude::*;

verus! {

/// One entry that a recursive directory walk yielded: the entry's path and the final
/// component of that path (`Path::file_name`), each as the bytes of its OS string, and
/// whether the entry is a regular file.
pub struct WalkEntry {
    pub path: Vec<u8>,
    pub file_name: Option<Vec<u8>>,
    pub is_file: bool,
}

/// The position of the last `.` in `name`, or -1 when it has none.
pub open spec fn last_dot(name: Seq<u8>) -> int
    decreases name.len(),
{
    if name.len() == 0 {
        -1
    } else if name.last() == 0x2e {
        name.len() - 1
    } else {
        last_dot(name.drop_last())
    }
}

/// The extension of a file name, as `Path::extension` documents it: none when the name has
/// no `.`, or begins with `.` and has no other; otherwise the part after the final `.`.
pub open spec fn extension(name: Seq<u8>) -> Option<Seq<u8>> {
    let d = last_dot(name);
    if d <= 0 {
        None
    } else {
        Some(name.skip(d + 1))
    }
}

/// Whether a file name has the extension `md` or `txt`.
pub open spec fn is_note_name(name: Seq<u8>) -> bool {
    match extension(name) {
        Some(e) => e == seq![0x6du8, 0x64u8] || e == seq![0x74u8, 0x78u8, 0x74u8],
        None => false,
    }
}

/// Whether a walked entry is a note: a regular file whose name ends in `.md` or `.txt`.
pub open spec fn is_note_entry(e: WalkEntry) -> bool {
    e.is_file && match e.file_name {
        Some(n) => is_note_name(n@),
        None => false,
    }
}

/// The paths of the notes among `entries`, in the order of the walk.
pub open spec fn note_paths(entries: Seq<WalkEntry>) -> Seq<Seq<u8>>
    decreases entries.len(),
{
    if entries.len() == 0 {
        seq![]
    } else {
        let before = note_paths(entries.drop_last());
        if is_note_entry(entries.last()) {
            before.push(entries.last().path@)
        } else {
            before
        }
    }
}

/// The byte sequences of a sequence of byte vectors.
pub open spec fn byte_seqs(v: Seq<Vec<u8>>) -> Seq<Seq<u8>> {
    v.map_values(|x: Vec<u8>| x@)
}

/// Whether the file name `name` has the extension `md` or `txt`.
pub fn has_note_extension(name: &Vec<u8>) -> (r: bool)
    ensures
        r == is_note_name(name@),
{
    let n = name.len();
    let mut i: usize = n;
    assert(name@.take(n as int) =~= name@);
    while i > 0 && name[i - 1] != 0x2e
        invariant
            i <= n == name.len(),
            last_dot(name@) == last_dot(name@.take(i as int)),
        decreases i,
    {
        assert(name@.take(i as int).drop_last() =~= name@.take(i - 1));
        i = i - 1;
    }
    if i <= 1 {
        // No `.`, or only a leading one.
        assert(last_dot(name@) <= 0) by {
            if i == 1 {
                assert(name@.take(1).last() == name@[0]);
            }
        }
        return false;
    }
    assert(last_dot(name@) == i - 1) by {
        assert(name@.take(i as int).last() == name@[i - 1]);
    }
    let len = n - i;
    let ghost e = name@.skip(i as int);
    assert(e.len() == len);
    assert(extension(name@) == Some(e));
    assert(seq![0x6du8, 0x64u8].len() == 2 && seq![0x74u8, 0x78u8, 0x74u8].len() == 3);
    if len == 2 {
        let r = name[i] == 0x6d && name[i + 1] == 0x64;
        assert(r ==> e =~= seq![0x6du8, 0x64u8]);
        assert(e == seq![0x6du8, 0x64u8] ==> e[0] == 0x6d && e[1] == 0x64);
        r
    } else if len == 3 {
        let r = name[i] == 0x74 && name[i + 1] == 0x78 && name[i + 2] == 0x74;
        assert(r ==> e =~= seq![0x74u8, 0x78u8, 0x74u8]);
        assert(e == seq![0x74u8, 0x78u8, 0x74u8] ==> e[0] == 0x74 && e[1] == 0x78 && e[2]
            == 0x74);
        r
    } else {
        false
    }
}

/// The paths of the notes among the entries of a recursive walk of a directory, in the
/// order of the walk: the regular files whose names end in `.md` or `.txt`.
pub fn discover_files(entries: &Vec<WalkEntry>) -> (paths: Vec<Vec<u8>>)
    ensures
        byte_seqs(paths@) == note_paths(entries@),
{
    let mut paths: Vec<Vec<u8>> = Vec::new();
    let n = entries.len();
    assert(entries@.take(0) =~= seq![]);
    assert(byte_seqs(paths@) =~= seq![]);
    for i in 0..n
        invariant
            n == entries.len(),
            byte_seqs(paths@) == note_paths(entries@.take(i as int)),
    {
        let e = &entries[i];
        let ghost before = byte_seqs(paths@);
        assert(entries@.take(i + 1).drop_last() =~= entries@.take(i as int));
        assert(entries@.take(i + 1).last() == *e);
        let keep = match &e.file_name {
            Some(name) => e.is_file && has_note_extension(name),
            None => false,
        };
        if keep {
            let p = e.path.clone();
            assert(p@ =~= e.path@);
            paths.push(p);
            assert(byte_seqs(paths@) =~= before.push(e.path@));
        }
    }
    assert(entries@.take(n as int) =~= entries@);
    paths
}

/// `last_dot` is the position of the last `.`: -1 when there is none, and no `.` follows it.
proof fn lemma_last_dot(name: Seq<u8>)
    ensures
        -1 <= last_dot(name) < name.len(),
        last_dot(name) >= 0 ==> name[last_dot(name)] == 0x2e,
        forall|j: int| last_dot(name) < j < name.len() ==> #[trigger] name[j] != 0x2e,
    decreases name.len(),
{
    if name.len() > 0 && name.last() != 0x2e {
        lemma_last_dot(name.drop_last());
        assert forall|j: int| last_dot(name) < j < name.len() implies #[trigger] name[j] != 0x2e by {
            if j < name.len() - 1 {
                assert(name[j] == name.drop_last()[j]);
            }
        }
    }
}

/// A file name is a note's exactly when it ends in `.md` or `.txt` after at least one
/// other character.
proof fn lemma_note_name_is_suffix(name: Seq<u8>)
    ensures
        is_note_name(name) <==> (name.len() >= 4 && name.subrange(name.len() - 3, name.len() as int)
            == seq![0x2eu8, 0x6du8, 0x64u8]) || (name.len() >= 5 && name.subrange(
            name.len() - 4,
            name.len() as int,
        ) == seq![0x2eu8, 0x74u8, 0x78u8, 0x74u8]),
{
    lemma_last_dot(name);
    let d = last_dot(name);
    let n = name.len() as int;
    let md = seq![0x2eu8, 0x6du8, 0x64u8];
    let txt = seq![0x2eu8, 0x74u8, 0x78u8, 0x74u8];
    if n >= 4 && name.subrange(n - 3, n) == md {
        assert(name[n - 3] == 0x2e && name[n - 2] == 0x6d && name[n - 1] == 0x64) by {
            assert(name.subrange(n - 3, n)[0] == name[n - 3]);
            assert(name.subrange(n - 3, n)[1] == name[n - 2]);
            assert(name.subrange(n - 3, n)[2] == name[n - 1]);
        }
        assert(d >= n - 3);
        assert(d == n - 3);
        assert(name.skip(d + 1) =~= seq![0x6du8, 0x64u8]);
    } else if n >= 5 && name.subrange(n - 4, n) == txt {
        assert(name[n - 4] == 0x2e && name[n - 3] == 0x74 && name[n - 2] == 0x78 && name[n - 1]
            == 0x74) by {
            assert(name.subrange(n - 4, n)[0] == name[n - 4]);
            assert(name.subrange(n - 4, n)[1] == name[n - 3]);
            assert(name.subrange(n - 4, n)[2] == name[n - 2]);
            assert(name.subrange(n - 4, n)[3] == name[n - 1]);
        }
        assert(d >= n - 4);
        assert(d == n - 4);
        assert(name.skip(d + 1) =~= seq![0x74u8, 0x78u8, 0x74u8]);
    } else if is_note_name(name) {
        let e = name.skip(d + 1);
        assert(d > 0);
        if e == seq![0x6du8, 0x64u8] {
            assert(e.len() == 2);
            assert(name.subrange(n - 3, n) =~= md) by {
                assert(name[n - 2] == e[0]);
                assert(name[n - 1] == e[1]);
            }
        } else {
            assert(e == seq![0x74u8, 0x78u8, 0x74u8]);
            assert(e.len() == 3);
            assert(name.subrange(n - 4, n) =~= txt) by {
                assert(name[n - 3] == e[0]);
                assert(name[n - 2] == e[1]);
                assert(name[n - 1] == e[2]);
            }
        }
    }
}

/// Discovery keeps the notes of a walk and only them, in walk order: an empty walk gives no
/// paths, and one more walked entry adds its path at the end exactly when the entry is a
/// regular file whose name ends in `.md` (after at least one character) or in `.txt` (after
/// at least one character) — whatever else the name holds, dots included — and otherwise
/// adds nothing.
pub proof fn law_discovery_keeps_exactly_notes(entries: Seq<WalkEntry>, e: WalkEntry)
    ensures
        note_paths(Seq::<WalkEntry>::empty()) == Seq::<Seq<u8>>::empty(),
        note_paths(entries.push(e)) == if e.is_file && match e.file_name {
            Some(name) => (name@.len() >= 4 && name@.subrange(
                name@.len() - 3,
                name@.len() as int,
            ) == seq![0x2eu8, 0x6du8, 0x64u8]) || (name@.len() >= 5 && name@.subrange(
                name@.len() - 4,
                name@.len() as int,
            ) == seq![0x2eu8, 0x74u8, 0x78u8, 0x74u8]),
            None => false,
        } {
            note_paths(entries).push(e.path@)
        } else {
            note_paths(entries)
        },
{
    assert(entries.push(e).drop_last() =~= entries);
    assert(entries.push(e).last() == e);
    if let Some(name) = e.file_name {
        lemma_note_name_is_suffix(name@);
    }
}

} // verus!
