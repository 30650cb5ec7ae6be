//! The order of the file browser: folders first, then by name without regard to case.

use vstd::prelude::*;
use crate::path::{is_markdown, markdown_path};
use crate::text::chars_of;

verus! {

/// The name lowered by `str::to_lowercase`, which maps every character to its Unicode
/// lowercase form.
pub uninterp spec fn lowercase(name: Seq<char>) -> Seq<char>;

/// Calls `str::to_lowercase`. The contract only names its result.
#[verifier::external_body]
fn to_lowercase(name: &str) -> (lower: String)
    ensures
        lower@ == lowercase(name@),
{
    name.to_lowercase()
}

/// An entry of a listed folder, with whatever the caller keeps beside it.
pub struct Listed<E> {
    pub is_directory: bool,
    pub name: String,
    pub item: E,
}

/// How the file browser shows an entry.
#[derive(Clone, Copy, Debug, PartialEq, Eq, Structural)]
pub enum EntryRole {
    /// A folder, listed with its own entries beneath it.
    Folder,
    /// A Markdown file, which opens in a tab when clicked.
    Markdown,
    /// Any other entry: listed, and deletable, but not opened.
    Other,
}

/// A folder is expanded unless it is reached through a symbolic link, which is listed as a
/// plain entry and never followed; a file is Markdown by its extension.
pub open spec fn role_of(is_directory: bool, is_symlink: bool, path: Seq<u8>) -> EntryRole {
    if is_directory && !is_symlink {
        EntryRole::Folder
    } else if markdown_path(path) {
        EntryRole::Markdown
    } else {
        EntryRole::Other
    }
}

/// How the file browser shows the entry at `path` (its bytes).
pub fn entry_role(is_directory: bool, is_symlink: bool, path: &[u8]) -> (role: EntryRole)
    ensures
        role == role_of(is_directory, is_symlink, path@),
{
    if is_directory && !is_symlink {
        EntryRole::Folder
    } else if is_markdown(path) {
        EntryRole::Markdown
    } else {
        EntryRole::Other
    }
}

/// `a` orders strictly before `b` by code points, as `String`'s `Ord` does (it compares
/// the UTF-8 bytes, which order as the code points do).
pub open spec fn text_less(a: Seq<char>, b: Seq<char>) -> bool
    decreases a.len(),
{
    if a.len() == 0 {
        b.len() > 0
    } else if b.len() == 0 {
        false
    } else if a[0] != b[0] {
        a[0] < b[0]
    } else {
        text_less(a.drop_first(), b.drop_first())
    }
}

/// Entry `a` of `entries` is listed before entry `b`: a folder before a file; otherwise
/// by lowercased name; entries with the same key keep their order.
pub open spec fn listed_before<E>(entries: Seq<Listed<E>>, a: int, b: int) -> bool {
    let x = entries[a];
    let y = entries[b];
    let lx = lowercase(x.name@);
    let ly = lowercase(y.name@);
    ||| x.is_directory && !y.is_directory
    ||| x.is_directory == y.is_directory && text_less(lx, ly)
    ||| x.is_directory == y.is_directory && lx == ly && a < b
}

/// An entry beside the key its name is ordered by.
pub struct Keyed<E> {
    pub lowered: String,
    pub entry: Listed<E>,
}

/// Entry `a` of `keys` is listed before entry `b`: a folder before a file; otherwise by
/// key; entries with the same key keep their order.
pub open spec fn keyed_before<E>(keys: Seq<Keyed<E>>, a: int, b: int) -> bool {
    let x = keys[a];
    let y = keys[b];
    ||| x.entry.is_directory && !y.entry.is_directory
    ||| x.entry.is_directory == y.entry.is_directory && text_less(x.lowered@, y.lowered@)
    ||| x.entry.is_directory == y.entry.is_directory && x.lowered@ == y.lowered@ && a < b
}

/// `perm` lists each index below `n` once.
pub open spec fn is_permutation(perm: Seq<int>, n: nat) -> bool {
    &&& perm.len() == n
    &&& forall|k: int| 0 <= k < n ==> 0 <= #[trigger] perm[k] < n
    &&& forall|k: int, l: int| 0 <= k < l < n ==> perm[k] != perm[l]
}

proof fn lemma_text_less_irreflexive(a: Seq<char>)
    ensures
        !text_less(a, a),
    decreases a.len(),
{
    if a.len() > 0 {
        lemma_text_less_irreflexive(a.drop_first());
    }
}

proof fn lemma_text_less_total(a: Seq<char>, b: Seq<char>)
    ensures
        text_less(a, b) || text_less(b, a) || a == b,
    decreases a.len(),
{
    if a.len() > 0 && b.len() > 0 && a[0] == b[0] {
        lemma_text_less_total(a.drop_first(), b.drop_first());
        if a.drop_first() == b.drop_first() {
            assert(a =~= seq![a[0]] + a.drop_first());
            assert(b =~= seq![b[0]] + b.drop_first());
        }
    } else if a.len() == 0 && b.len() == 0 {
        assert(a =~= b);
    }
}

proof fn lemma_text_less_transitive(a: Seq<char>, b: Seq<char>, c: Seq<char>)
    requires
        text_less(a, b),
        text_less(b, c),
    ensures
        text_less(a, c),
    decreases a.len(),
{
    if a.len() > 0 && b.len() > 0 && c.len() > 0 && a[0] == b[0] && b[0] == c[0] {
        lemma_text_less_transitive(a.drop_first(), b.drop_first(), c.drop_first());
    }
}

proof fn lemma_text_less_asymmetric(a: Seq<char>, b: Seq<char>)
    requires
        text_less(a, b),
    ensures
        !text_less(b, a),
    decreases a.len(),
{
    if a.len() > 0 && b.len() > 0 && a[0] == b[0] {
        lemma_text_less_asymmetric(a.drop_first(), b.drop_first());
    }
}

/// The order of names is the lexicographic order on code points, as `String`'s `Ord`
/// gives it: `a` comes before `b` exactly when `a` is a proper prefix of `b`, or when at
/// the first position where they differ, `a` has the smaller character.
pub proof fn lemma_text_less_is_lexicographic(a: Seq<char>, b: Seq<char>)
    ensures
        text_less(a, b) <==> (
            (a.len() < b.len() && a == b.subrange(0, a.len() as int))
            || exists|i: int| 0 <= i < a.len() && i < b.len()
                && a.subrange(0, i) == b.subrange(0, i) && #[trigger] a[i] < b[i]
        ),
    decreases a.len(),
{
    let prefix = a.len() < b.len() && a == b.subrange(0, a.len() as int);
    let differs = exists|i: int| 0 <= i < a.len() && i < b.len()
        && a.subrange(0, i) == b.subrange(0, i) && #[trigger] a[i] < b[i];
    if a.len() == 0 {
        assert(a =~= b.subrange(0, 0));
    } else if b.len() == 0 {
    } else if a[0] != b[0] {
        if prefix {
            assert(b.subrange(0, a.len() as int)[0] == b[0]);
        }
        if a[0] < b[0] {
            assert(a.subrange(0, 0) =~= b.subrange(0, 0));
            assert(differs);
        } else if differs {
            let i = choose|i: int| 0 <= i < a.len() && i < b.len()
                && a.subrange(0, i) == b.subrange(0, i) && #[trigger] a[i] < b[i];
            if i > 0 {
                assert(a.subrange(0, i)[0] == b.subrange(0, i)[0]);
            }
        }
    } else {
        let a1 = a.drop_first();
        let b1 = b.drop_first();
        lemma_text_less_is_lexicographic(a1, b1);
        let prefix1 = a1.len() < b1.len() && a1 == b1.subrange(0, a1.len() as int);
        let differs1 = exists|i: int| 0 <= i < a1.len() && i < b1.len()
            && a1.subrange(0, i) == b1.subrange(0, i) && #[trigger] a1[i] < b1[i];
        if prefix {
            assert(a1 =~= b1.subrange(0, a1.len() as int)) by {
                assert forall|k: int| 0 <= k < a1.len() implies a1[k] == b1.subrange(0, a1.len() as int)[k] by {
                    assert(a[k + 1] == b.subrange(0, a.len() as int)[k + 1]);
                }
            }
        }
        if prefix1 {
            assert(a =~= b.subrange(0, a.len() as int)) by {
                assert forall|k: int| 0 <= k < a.len() implies a[k] == b.subrange(0, a.len() as int)[k] by {
                    if k > 0 {
                        assert(a1[k - 1] == b1.subrange(0, a1.len() as int)[k - 1]);
                    }
                }
            }
        }
        if differs {
            let i = choose|i: int| 0 <= i < a.len() && i < b.len()
                && a.subrange(0, i) == b.subrange(0, i) && #[trigger] a[i] < b[i];
            assert(i > 0);
            assert(a1.subrange(0, i - 1) =~= b1.subrange(0, i - 1)) by {
                assert forall|k: int| 0 <= k < i - 1 implies a1[k] == b1[k] by {
                    assert(a.subrange(0, i)[k + 1] == b.subrange(0, i)[k + 1]);
                }
            }
            assert(a1[i - 1] < b1[i - 1]);
            assert(differs1);
        }
        if differs1 {
            let j = choose|i: int| 0 <= i < a1.len() && i < b1.len()
                && a1.subrange(0, i) == b1.subrange(0, i) && #[trigger] a1[i] < b1[i];
            assert(a.subrange(0, j + 1) =~= b.subrange(0, j + 1)) by {
                assert forall|k: int| 0 <= k < j + 1 implies a[k] == b[k] by {
                    if k > 0 {
                        assert(a1.subrange(0, j)[k - 1] == b1.subrange(0, j)[k - 1]);
                    }
                }
            }
            assert(a[j + 1] < b[j + 1]);
            assert(differs);
        }
    }
}

/// Whether `a` orders strictly before `b`.
fn chars_less(a: &Vec<char>, b: &Vec<char>) -> (less: bool)
    ensures
        less == text_less(a@, b@),
{
    let mut i: usize = 0;
    proof {
        assert(a@.subrange(0, a@.len() as int) =~= a@);
        assert(b@.subrange(0, b@.len() as int) =~= b@);
    }
    while i < a.len() && i < b.len()
        invariant
            i <= a@.len(),
            i <= b@.len(),
            a@.subrange(0, i as int) == b@.subrange(0, i as int),
            text_less(a@, b@) == text_less(a@.subrange(i as int, a@.len() as int), b@.subrange(i as int, b@.len() as int)),
        decreases a@.len() - i,
    {
        let ghost sa = a@.subrange(i as int, a@.len() as int);
        let ghost sb = b@.subrange(i as int, b@.len() as int);
        if a[i] != b[i] {
            return a[i] < b[i];
        }
        proof {
            assert(sa.drop_first() =~= a@.subrange(i + 1, a@.len() as int));
            assert(sb.drop_first() =~= b@.subrange(i + 1, b@.len() as int));
            assert(a@.subrange(0, i + 1) =~= a@.subrange(0, i as int).push(a@[i as int]));
            assert(b@.subrange(0, i + 1) =~= b@.subrange(0, i as int).push(b@[i as int]));
        }
        i += 1;
    }
    i == a.len() && i < b.len()
}


/// The order of the file browser: a folder comes before a file; among entries of the same
/// kind, the one whose key orders first comes first; entries with equal keys keep their
/// order. Exactly one of two different entries comes first.
pub proof fn lemma_folders_first_then_names<E>(keys: Seq<Keyed<E>>, a: int, b: int)
    requires
        0 <= a < keys.len(),
        0 <= b < keys.len(),
        a != b,
    ensures
        keyed_before(keys, a, b) != keyed_before(keys, b, a),
        keys[a].entry.is_directory && !keys[b].entry.is_directory ==> keyed_before(keys, a, b),
        keys[a].entry.is_directory == keys[b].entry.is_directory
            && text_less(keys[a].lowered@, keys[b].lowered@) ==> keyed_before(keys, a, b),
        keys[a].entry.is_directory == keys[b].entry.is_directory
            && keys[a].lowered@ == keys[b].lowered@ ==> (keyed_before(keys, a, b) <==> a < b),
{
    lemma_keyed_before_total(keys, a, b);
    let la = keys[a].lowered@;
    let lb = keys[b].lowered@;
    if text_less(la, lb) {
        lemma_text_less_asymmetric(la, lb);
        if la == lb {
            lemma_text_less_irreflexive(la);
        }
    }
    if text_less(lb, la) {
        lemma_text_less_asymmetric(lb, la);
        if la == lb {
            lemma_text_less_irreflexive(la);
        }
    }
}

/// An entry waiting to be placed, with its key as characters and its position in the input.
struct Slot<E> {
    lower: Vec<char>,
    index: usize,
    keyed: Keyed<E>,
}

spec fn slot_ok<E>(keys: Seq<Keyed<E>>, s: Slot<E>) -> bool {
    &&& 0 <= s.index < keys.len()
    &&& s.keyed == keys[s.index as int]
    &&& s.lower@ == keys[s.index as int].lowered@
}

fn slot_before<E>(a: &Slot<E>, b: &Slot<E>) -> (before: bool)
    ensures
        before == ({
            let x = a.keyed.entry;
            let y = b.keyed.entry;
            ||| x.is_directory && !y.is_directory
            ||| x.is_directory == y.is_directory && text_less(a.lower@, b.lower@)
            ||| x.is_directory == y.is_directory && a.lower@ == b.lower@ && a.index < b.index
        }),
{
    if a.keyed.entry.is_directory != b.keyed.entry.is_directory {
        return a.keyed.entry.is_directory;
    }
    if chars_less(&a.lower, &b.lower) {
        return true;
    }
    if chars_less(&b.lower, &a.lower) {
        proof { lemma_text_less_asymmetric(b.lower@, a.lower@); }
        return false;
    }
    proof { lemma_text_less_total(a.lower@, b.lower@); }
    a.index < b.index
}

proof fn lemma_keyed_before_total<E>(keys: Seq<Keyed<E>>, a: int, b: int)
    requires
        0 <= a < keys.len(),
        0 <= b < keys.len(),
        a != b,
    ensures
        keyed_before(keys, a, b) || keyed_before(keys, b, a),
{
    lemma_text_less_total(keys[a].lowered@, keys[b].lowered@);
}

proof fn lemma_keyed_before_transitive<E>(keys: Seq<Keyed<E>>, a: int, b: int, c: int)
    requires
        keyed_before(keys, a, b),
        keyed_before(keys, b, c),
    ensures
        keyed_before(keys, a, c),
{
    let la = keys[a].lowered@;
    let lb = keys[b].lowered@;
    let lc = keys[c].lowered@;
    if text_less(la, lb) && text_less(lb, lc) {
        lemma_text_less_transitive(la, lb, lc);
    }
}

/// Orders entries by their given keys as the file browser lists them: folders before
/// files, then by key; entries whose keys are equal keep their order (a stable sort).
pub fn sort_keyed<E>(keys: Vec<Keyed<E>>) -> (sorted: Vec<Keyed<E>>)
    ensures
        sorted@.len() == keys@.len(),
        exists|perm: Seq<int>| {
            &&& is_permutation(perm, keys@.len())
            &&& forall|k: int| 0 <= k < sorted@.len() ==> #[trigger] sorted@[k] == keys@[perm[k]]
            &&& forall|k: int, l: int| 0 <= k < l < sorted@.len()
                ==> keyed_before(keys@, #[trigger] perm[k], #[trigger] perm[l])
        },
{
    let ghost input = keys@;
    let n = keys.len();
    let mut rest = keys;
    let mut slots: Vec<Slot<E>> = Vec::new();
    while rest.len() > 0
        invariant
            rest@.len() + slots@.len() == n,
            n == input.len(),
            rest@ == input.subrange(0, rest@.len() as int),
            forall|k: int| 0 <= k < slots@.len() ==> slot_ok(input, #[trigger] slots@[k]),
            forall|k: int| 0 <= k < slots@.len() ==> (#[trigger] slots@[k]).index >= rest@.len(),
            forall|k: int, l: int| 0 <= k < l < slots@.len()
                ==> keyed_before(input, (#[trigger] slots@[k]).index as int, (#[trigger] slots@[l]).index as int),
        decreases rest@.len(),
    {
        let keyed = rest.pop().unwrap();
        let index = rest.len();
        let lower = chars_of(keyed.lowered.as_str());
        let slot = Slot { lower, index, keyed };
        proof {
            assert(rest@ =~= input.subrange(0, index as int));
        }
        let mut j: usize = 0;
        while j < slots.len() && slot_before(&slots[j], &slot)
            invariant
                j <= slots@.len(),
                slot_ok(input, slot),
                slot.index == index,
                forall|k: int| 0 <= k < slots@.len() ==> slot_ok(input, #[trigger] slots@[k]),
                forall|k: int| 0 <= k < j ==> keyed_before(input, (#[trigger] slots@[k]).index as int, index as int),
            decreases slots@.len() - j,
        {
            j += 1;
        }
        proof {
            if j < slots@.len() {
                let s = slots@[j as int];
                assert(!keyed_before(input, s.index as int, index as int));
                assert(s.index != index);
                lemma_keyed_before_total(input, s.index as int, index as int);
            }
        }
        let ghost before = slots@;
        slots.insert(j, slot);
        proof {
            assert forall|k: int, l: int| 0 <= k < l < slots@.len()
                implies keyed_before(input, (#[trigger] slots@[k]).index as int, (#[trigger] slots@[l]).index as int) by {
                if l < j {
                    assert(slots@[k] == before[k] && slots@[l] == before[l]);
                } else if l == j {
                    assert(slots@[k] == before[k]);
                } else if k == j {
                    assert(slots@[l] == before[l - 1]);
                    if l - 1 > j {
                        lemma_keyed_before_transitive(input, index as int, before[j as int].index as int, before[l - 1].index as int);
                    }
                } else if k < j {
                    assert(slots@[k] == before[k] && slots@[l] == before[l - 1]);
                } else {
                    assert(slots@[k] == before[k - 1] && slots@[l] == before[l - 1]);
                }
            }
            assert forall|k: int| 0 <= k < slots@.len() implies slot_ok(input, #[trigger] slots@[k])
                && slots@[k].index >= rest@.len() by {
                if k < j { assert(slots@[k] == before[k]); }
                else if k > j { assert(slots@[k] == before[k - 1]); }
            }
        }
    }
    let ghost perm = slots@.map_values(|s: Slot<E>| s.index as int);
    let ghost placed = slots@;
    let mut out: Vec<Keyed<E>> = Vec::new();
    while slots.len() > 0
        invariant
            out@.len() + slots@.len() == n,
            placed.len() == n,
            slots@ == placed.subrange(out@.len() as int, n as int),
            forall|k: int| 0 <= k < out@.len() ==> #[trigger] out@[k] == placed[k].keyed,
        decreases slots@.len(),
    {
        let slot = slots.remove(0);
        out.push(slot.keyed);
        proof {
            assert(slots@ =~= placed.subrange(out@.len() as int, n as int));
        }
    }
    proof {
        assert forall|k: int| 0 <= k < out@.len() implies #[trigger] out@[k] == input[perm[k]] by {
            assert(slot_ok(input, placed[k]));
        }
        assert forall|k: int, l: int| 0 <= k < l < out@.len()
            implies keyed_before(input, #[trigger] perm[k], #[trigger] perm[l]) by {
            assert(perm[k] == placed[k].index as int);
            assert(perm[l] == placed[l].index as int);
        }
        assert forall|k: int| 0 <= k < n implies 0 <= #[trigger] perm[k] < n by {
            assert(slot_ok(input, placed[k]));
        }
        assert forall|k: int, l: int| 0 <= k < l < n implies perm[k] != perm[l] by {
            assert(keyed_before(input, perm[k], perm[l]));
            if perm[k] == perm[l] {
                lemma_text_less_irreflexive(input[perm[k]].lowered@);
            }
        }
        assert(is_permutation(perm, n as nat));
    }
    out
}

/// Orders a folder's entries as the file browser lists them: folders before files, then by
/// lowercased name; entries whose keys are equal keep their order (a stable sort).
pub fn sort_entries<E>(entries: Vec<Listed<E>>) -> (sorted: Vec<Listed<E>>)
    ensures
        sorted@.len() == entries@.len(),
        exists|perm: Seq<int>| {
            &&& is_permutation(perm, entries@.len())
            &&& forall|k: int| 0 <= k < sorted@.len() ==> #[trigger] sorted@[k] == entries@[perm[k]]
            &&& forall|k: int, l: int| 0 <= k < l < sorted@.len()
                ==> listed_before(entries@, #[trigger] perm[k], #[trigger] perm[l])
        },
{
    let ghost input = entries@;
    let n = entries.len();
    let mut rest = entries;
    let mut keys: Vec<Keyed<E>> = Vec::new();
    while rest.len() > 0
        invariant
            keys@.len() + rest@.len() == n,
            input.len() == n,
            rest@ == input.subrange(keys@.len() as int, n as int),
            forall|k: int| 0 <= k < keys@.len() ==> (#[trigger] keys@[k]).entry == input[k]
                && keys@[k].lowered@ == lowercase(input[k].name@),
        decreases rest@.len(),
    {
        let entry = rest.remove(0);
        let lowered = to_lowercase(entry.name.as_str());
        keys.push(Keyed { lowered, entry });
        proof {
            assert(rest@ =~= input.subrange(keys@.len() as int, n as int));
        }
    }
    let ghost keyed = keys@;
    let mut ordered = sort_keyed(keys);
    let ghost by_key = ordered@;
    let ghost perm = choose|perm: Seq<int>| {
        &&& is_permutation(perm, keyed.len())
        &&& forall|k: int| 0 <= k < by_key.len() ==> #[trigger] by_key[k] == keyed[perm[k]]
        &&& forall|k: int, l: int| 0 <= k < l < by_key.len()
            ==> keyed_before(keyed, #[trigger] perm[k], #[trigger] perm[l])
    };
    let mut out: Vec<Listed<E>> = Vec::new();
    while ordered.len() > 0
        invariant
            out@.len() + ordered@.len() == n,
            by_key.len() == n,
            ordered@ == by_key.subrange(out@.len() as int, n as int),
            forall|k: int| 0 <= k < out@.len() ==> #[trigger] out@[k] == by_key[k].entry,
        decreases ordered@.len(),
    {
        let keyed_entry = ordered.remove(0);
        out.push(keyed_entry.entry);
        proof {
            assert(ordered@ =~= by_key.subrange(out@.len() as int, n as int));
        }
    }
    proof {
        assert forall|k: int| 0 <= k < out@.len() implies #[trigger] out@[k] == input[perm[k]] by {
            assert(by_key[k] == keyed[perm[k]]);
        }
        assert forall|k: int, l: int| 0 <= k < l < out@.len()
            implies listed_before(input, #[trigger] perm[k], #[trigger] perm[l]) by {
            assert(keyed_before(keyed, perm[k], perm[l]));
            assert(keyed[perm[k]].entry == input[perm[k]]);
            assert(keyed[perm[l]].entry == input[perm[l]]);
        }
    }
    out
}

} // verus!
