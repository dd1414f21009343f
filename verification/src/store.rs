//! The paste store: a single flat namespace mapping each identifier to the
//! byte content of one paste. This module holds the verified state of the
//! namespace and the operations on it — create, read, overwrite, delete,
//! and first-line summaries — keyed by validated identifiers. Persisting
//! the namespace on a filesystem is a thin unverified adapter's concern;
//! the adapter mirrors exactly these operations, one file per identifier,
//! the file's bytes being the paste's bytes with no added framing.

use vstd::prelude::*;
use vstd::pervasive::VecAdditionalExecFns;
use vstd::string::*;
use crate::paste_id::PasteID;

verus! {

/// A preview keeps at most this many bytes of a paste's first line.
pub const PREVIEW_THRESHOLD: usize = 24;

/// The byte that terminates a line.
pub const LINE_FEED: u8 = 10;

/// Length of the first line of `bytes`, its terminating line feed
/// included; the whole sequence when no line feed occurs.
pub open spec fn line_len(bytes: Seq<u8>) -> int
    decreases bytes.len(),
{
    if bytes.len() == 0 {
        0
    } else if bytes[0] == LINE_FEED {
        1
    } else {
        1 + line_len(bytes.subrange(1, bytes.len() as int))
    }
}

/// The first line of `bytes`, its terminating line feed included.
pub open spec fn first_line(bytes: Seq<u8>) -> Seq<u8> {
    bytes.take(line_len(bytes))
}

/// The preview of a paste: its first line, line feed included, cut to
/// `PREVIEW_THRESHOLD` bytes when the line meets or exceeds the threshold.
pub open spec fn preview_of(bytes: Seq<u8>) -> Seq<u8> {
    if line_len(bytes) < PREVIEW_THRESHOLD as int {
        first_line(bytes)
    } else {
        first_line(bytes).take(PREVIEW_THRESHOLD as int)
    }
}

/// Whether the preview of `bytes` was cut short of its first line.
pub open spec fn preview_truncated(bytes: Seq<u8>) -> bool {
    line_len(bytes) >= PREVIEW_THRESHOLD as int
}

/// The first line is never longer than the whole content.
proof fn lemma_line_len_bounds(bytes: Seq<u8>)
    ensures
        0 <= line_len(bytes) <= bytes.len(),
    decreases bytes.len(),
{
    if bytes.len() != 0 && bytes[0] != LINE_FEED {
        lemma_line_len_bounds(bytes.subrange(1, bytes.len() as int));
    }
}

/// A scan that saw no line feed before position `i` pins `line_len` down:
/// a line feed at `i` ends the line there; no line feed at all means the
/// line is the whole sequence.
proof fn lemma_line_len_scan(bytes: Seq<u8>, i: int)
    requires
        0 <= i <= bytes.len(),
        forall|j: int| 0 <= j < i ==> bytes[j] != LINE_FEED,
    ensures
        i < bytes.len() && bytes[i] == LINE_FEED ==> line_len(bytes) == i + 1,
        i == bytes.len() ==> line_len(bytes) == bytes.len(),
    decreases i,
{
    if i == 0 {
        if bytes.len() == 0 {
        } else if bytes[0] != LINE_FEED {
            lemma_line_len_bounds(bytes.subrange(1, bytes.len() as int));
        }
    } else {
        let tail = bytes.subrange(1, bytes.len() as int);
        assert(bytes[0] != LINE_FEED);
        assert(forall|j: int| 0 <= j < i - 1 ==> tail[j] == bytes[j + 1] && tail[j] != LINE_FEED);
        lemma_line_len_scan(tail, i - 1);
        if i < bytes.len() && bytes[i] == LINE_FEED {
            assert(tail[i - 1] == LINE_FEED);
        }
    }
}

/// Position one past the end of the first line of `content`.
fn first_line_end(content: &Vec<u8>) -> (e: usize)
    ensures
        e == line_len(content@),
        e <= content@.len(),
{
    let len = content.len();
    let mut i: usize = 0;
    while i < len
        invariant
            len == content@.len(),
            i <= len,
            forall|j: int| 0 <= j < i ==> content@[j] != LINE_FEED,
        decreases len - i,
    {
        if content[i] == LINE_FEED {
            proof {
                lemma_line_len_scan(content@, i as int);
            }
            return i + 1;
        }
        i = i + 1;
    }
    proof {
        lemma_line_len_scan(content@, len as int);
    }
    len
}

/// The preview of a paste's content: its first line (line feed included),
/// cut to `PREVIEW_THRESHOLD` bytes and flagged truncated when the line
/// meets or exceeds the threshold. Works on bytes, so content that is not
/// valid text is previewed without any risk of splitting inside a
/// character.
pub fn preview(content: &Vec<u8>) -> (r: (Vec<u8>, bool))
    ensures
        r.0@ == preview_of(content@),
        r.1 == preview_truncated(content@),
{
    let line_end = first_line_end(content);
    let truncated = line_end >= PREVIEW_THRESHOLD;
    let n = if truncated {
        PREVIEW_THRESHOLD
    } else {
        line_end
    };
    let mut out: Vec<u8> = Vec::new();
    let mut i: usize = 0;
    while i < n
        invariant
            n <= content@.len(),
            i <= n,
            out@.len() == i,
            forall|j: int| 0 <= j < i ==> out@[j] == content@[j],
        decreases n - i,
    {
        out.push(content[i]);
        i = i + 1;
    }
    proof {
        assert(out@ =~= content@.take(n as int));
        if truncated {
            assert(preview_of(content@) =~= content@.take(PREVIEW_THRESHOLD as int));
        } else {
            assert(preview_of(content@) =~= content@.take(line_end as int));
        }
    }
    (out, truncated)
}

/// One row of a listing: an identifier's string form, the preview of its
/// paste's first line, and whether the preview was cut short.
pub struct Summary {
    pub id: String,
    pub preview: Vec<u8>,
    pub truncated: bool,
}

/// A lookup that found nothing: the identifier has no backing resource.
/// This is an expected, non-fatal outcome.
#[derive(Clone, Copy, PartialEq, Eq, Debug)]
pub enum StoreError {
    NotFound,
}

/// One stored paste: the identifier's string form and the raw bytes.
struct Entry {
    id: String,
    content: Vec<u8>,
}

/// The flat namespace of pastes, keyed by identifier string.
pub struct PasteStore {
    entries: Vec<Entry>,
}

/// No two entries share an identifier.
spec fn distinct_ids(s: Seq<Entry>) -> bool {
    forall|p: int, q: int| 0 <= p < q < s.len() ==> s[p].id@ != s[q].id@
}

/// Some entry of `s` is keyed by `k`.
spec fn has_id(s: Seq<Entry>, k: Seq<char>) -> bool {
    exists|i: int| 0 <= i < s.len() && s[i].id@ == k
}

/// The index of the entry keyed by `k` (unique when ids are distinct).
spec fn idx_of(s: Seq<Entry>, k: Seq<char>) -> int {
    choose|i: int| 0 <= i < s.len() && s[i].id@ == k
}

/// With distinct ids, the entry keyed by `s[i].id@` is exactly `s[i]`.
proof fn lemma_idx_of(s: Seq<Entry>, k: Seq<char>, i: int)
    requires
        distinct_ids(s),
        0 <= i < s.len(),
        s[i].id@ == k,
    ensures
        has_id(s, k),
        idx_of(s, k) == i,
{
    assert(has_id(s, k));
    let j = idx_of(s, k);
    if j < i {
        assert(s[j].id@ != s[i].id@);
    } else if i < j {
        assert(s[i].id@ != s[j].id@);
    }
}

impl View for PasteStore {
    type V = Map<Seq<char>, Seq<u8>>;

    /// The store seen as a map from identifier string to paste bytes.
    closed spec fn view(&self) -> Map<Seq<char>, Seq<u8>> {
        Map::new(
            |k: Seq<char>| has_id(self.entries@, k),
            |k: Seq<char>| self.entries@[idx_of(self.entries@, k)].content@,
        )
    }
}

impl PasteStore {
    /// Internal well-formedness: one entry per identifier.
    pub closed spec fn wf(&self) -> bool {
        distinct_ids(self.entries@)
    }

    /// An empty namespace: no identifier has content.
    pub fn new() -> (r: PasteStore)
        ensures
            r.wf(),
            r@ == Map::<Seq<char>, Seq<u8>>::empty(),
    {
        let r = PasteStore { entries: Vec::new() };
        proof {
            assert(r@ =~= Map::<Seq<char>, Seq<u8>>::empty());
        }
        r
    }

    /// The index of the entry keyed by `key`, if any.
    fn find_index(&self, key: &String) -> (r: Option<usize>)
        ensures
            (r matches Some(i) ==> i < self.entries@.len() && self.entries@[i as int].id@
                == key@),
            r is None ==> !has_id(self.entries@, key@),
    {
        let n = self.entries.len();
        let mut i: usize = 0;
        while i < n
            invariant
                n == self.entries@.len(),
                i <= n,
                forall|j: int| 0 <= j < i ==> self.entries@[j].id@ != key@,
            decreases n - i,
        {
            if self.entries[i].id == *key {
                return Some(i);
            }
            i = i + 1;
        }
        None
    }

    /// Append a fresh entry for an identifier that has none yet.
    fn insert_new(&mut self, id: &PasteID, content: Vec<u8>)
        requires
            old(self).wf(),
            !old(self)@.contains_key(id@),
        ensures
            final(self).wf(),
            final(self)@ == old(self)@.insert(id@, content@),
    {
        let ghost cv = content@;
        let e = Entry { id: id.key().clone(), content };
        self.entries.push(e);
        proof {
            let s = old(self).entries@;
            let t = self.entries@;
            assert(!has_id(s, id@));
            assert forall|p: int, q: int| 0 <= p < q < t.len() implies t[p].id@ != t[q].id@ by {
                if q < s.len() {
                    assert(s[p].id@ != s[q].id@);
                } else {
                    assert(t[q].id@ == id@);
                    assert(s[p].id@ != id@);
                }
            }
            assert forall|k: Seq<char>| #[trigger] has_id(t, k) && k != id@ implies has_id(
                s,
                k,
            ) by {
                let w = choose|w: int| 0 <= w < t.len() && t[w].id@ == k;
                assert(w < s.len());
                assert(s[w].id@ == k);
            }
            assert forall|k: Seq<char>| #[trigger] has_id(s, k) implies has_id(t, k) by {
                let w = choose|w: int| 0 <= w < s.len() && s[w].id@ == k;
                assert(t[w].id@ == k);
            }
            lemma_idx_of(t, id@, s.len() as int);
            assert(self@[id@] == cv);
            assert forall|k: Seq<char>| #[trigger] has_id(t, k) && k != id@ implies self@[k]
                == old(self)@[k] by {
                let j = idx_of(t, k);
                assert(0 <= j < t.len() && t[j].id@ == k);
                assert(j < s.len());
                assert(s[j].id@ == k);
                lemma_idx_of(s, k, j);
            }
            assert(self@ =~= old(self)@.insert(id@, cv));
        }
    }

    /// Store `content` under `id`: create the resource if it is absent, or
    /// replace its bytes wholesale if it is present — overwrite, never
    /// append. The resource then holds exactly `content`.
    pub fn put(&mut self, id: &PasteID, content: Vec<u8>)
        requires
            old(self).wf(),
        ensures
            final(self).wf(),
            final(self)@ == old(self)@.insert(id@, content@),
    {
        let ghost cv = content@;
        match self.find_index(id.key()) {
            Some(i) => {
                let e = Entry { id: id.key().clone(), content };
                self.entries.set(i, e);
                proof {
                    let s = old(self).entries@;
                    let t = self.entries@;
                    lemma_idx_of(s, id@, i as int);
                    assert forall|p: int| 0 <= p < t.len() implies #[trigger] t[p].id@
                        == s[p].id@ by {
                        if p != i as int {
                            assert(t[p] == s[p]);
                        }
                    }
                    assert forall|p: int, q: int| 0 <= p < q < t.len() implies t[p].id@
                        != t[q].id@ by {
                        assert(s[p].id@ != s[q].id@);
                    }
                    assert forall|k: Seq<char>| #[trigger] has_id(t, k) implies has_id(s, k) by {
                        let w = choose|w: int| 0 <= w < t.len() && t[w].id@ == k;
                        assert(s[w].id@ == k);
                    }
                    assert forall|k: Seq<char>| #[trigger] has_id(s, k) implies has_id(t, k) by {
                        let w = choose|w: int| 0 <= w < s.len() && s[w].id@ == k;
                        assert(t[w].id@ == k);
                    }
                    lemma_idx_of(t, id@, i as int);
                    assert(self@[id@] == cv);
                    assert forall|k: Seq<char>| #[trigger] has_id(t, k) && k != id@ implies self@[k]
                        == old(self)@[k] by {
                        let j = idx_of(t, k);
                        assert(0 <= j < t.len() && t[j].id@ == k);
                        assert(j != i as int);
                        assert(t[j] == s[j]);
                        lemma_idx_of(s, k, j);
                    }
                    assert(self@ =~= old(self)@.insert(id@, cv));
                }
            },
            None => {
                self.insert_new(id, content);
            },
        }
    }

    /// Pre-allocate an empty resource for `id` if none exists; an
    /// identifier that already has content keeps it untouched — reserving
    /// is never destructive.
    pub fn reserve(&mut self, id: &PasteID)
        requires
            old(self).wf(),
        ensures
            final(self).wf(),
            old(self)@.contains_key(id@) ==> final(self)@ == old(self)@,
            !old(self)@.contains_key(id@) ==> final(self)@ == old(self)@.insert(
                id@,
                Seq::<u8>::empty(),
            ),
    {
        match self.find_index(id.key()) {
            Some(i) => {
                proof {
                    lemma_idx_of(self.entries@, id@, i as int);
                }
            },
            None => {
                let empty: Vec<u8> = Vec::new();
                self.insert_new(id, empty);
            },
        }
    }

    /// Remove the resource for `id`. `NotFound` exactly when it did not
    /// exist, in which case the store is unchanged; on success the
    /// identifier no longer has content.
    pub fn delete(&mut self, id: &PasteID) -> (r: Result<(), StoreError>)
        requires
            old(self).wf(),
        ensures
            final(self).wf(),
            r is Ok <==> old(self)@.contains_key(id@),
            r is Ok ==> final(self)@ == old(self)@.remove(id@),
            (r matches Err(e) ==> e == StoreError::NotFound && final(self)@ == old(self)@),
    {
        match self.find_index(id.key()) {
            Some(i) => {
                self.entries.remove(i);
                proof {
                    let s = old(self).entries@;
                    let t = self.entries@;
                    lemma_idx_of(s, id@, i as int);
                    assert forall|p: int, q: int| 0 <= p < q < t.len() implies t[p].id@
                        != t[q].id@ by {
                        let p1: int = if p < i as int { p } else { p + 1 };
                        let q1: int = if q < i as int { q } else { q + 1 };
                        assert(t[p].id@ == s[p1].id@);
                        assert(t[q].id@ == s[q1].id@);
                        assert(s[p1].id@ != s[q1].id@);
                    }
                    assert forall|k: Seq<char>| #[trigger] has_id(t, k) implies has_id(s, k) && k
                        != id@ by {
                        let w = choose|w: int| 0 <= w < t.len() && t[w].id@ == k;
                        let w1: int = if w < i as int { w } else { w + 1 };
                        assert(s[w1].id@ == k);
                        assert(w1 != i as int);
                        if w1 < i as int {
                            assert(s[w1].id@ != s[i as int].id@);
                        } else {
                            assert(s[i as int].id@ != s[w1].id@);
                        }
                    }
                    assert forall|k: Seq<char>| #[trigger] has_id(s, k) && k != id@ implies has_id(
                        t,
                        k,
                    ) by {
                        let w = choose|w: int| 0 <= w < s.len() && s[w].id@ == k;
                        assert(w != i as int);
                        if w < i as int {
                            assert(t[w].id@ == k);
                        } else {
                            assert(t[w - 1].id@ == k);
                        }
                    }
                    assert forall|k: Seq<char>| #[trigger] has_id(t, k) implies self@[k] == old(
                        self,
                    )@[k] by {
                        let j = idx_of(t, k);
                        assert(0 <= j < t.len() && t[j].id@ == k);
                        let j1: int = if j < i as int { j } else { j + 1 };
                        assert(t[j] == s[j1]);
                        lemma_idx_of(s, k, j1);
                    }
                    assert(self@ =~= old(self)@.remove(id@));
                }
                Ok(())
            },
            None => {
                Err(StoreError::NotFound)
            },
        }
    }

    /// Read the paste stored under `id`: exactly the bytes last written.
    /// `NotFound` exactly when no resource exists for `id`.
    pub fn get(&self, id: &PasteID) -> (r: Result<&Vec<u8>, StoreError>)
        requires
            self.wf(),
        ensures
            r is Ok <==> self@.contains_key(id@),
            (r matches Ok(c) ==> c@ == self@[id@]),
            (r matches Err(e) ==> e == StoreError::NotFound),
    {
        match self.find_index(id.key()) {
            Some(i) => {
                proof {
                    lemma_idx_of(self.entries@, id@, i as int);
                }
                Ok(&self.entries[i].content)
            },
            None => {
                Err(StoreError::NotFound)
            },
        }
    }

    /// List every stored paste, in no guaranteed order: one summary per
    /// entry, carrying the preview of that paste's content. Read-only;
    /// each identifier of the store appears exactly once.
    pub fn list_summaries(&self) -> (r: Vec<Summary>)
        requires
            self.wf(),
        ensures
            forall|i: int|
                #![auto]
                0 <= i < r@.len() ==> self@.contains_key(r@[i].id@) && r@[i].preview@
                    == preview_of(self@[r@[i].id@]) && r@[i].truncated == preview_truncated(
                    self@[r@[i].id@],
                ),
            forall|p: int, q: int| #![auto] 0 <= p < q < r@.len() ==> r@[p].id@ != r@[q].id@,
            forall|k: Seq<char>|
                self@.contains_key(k) ==> exists|i: int| 0 <= i < r@.len() && r@[i].id@ == k,
    {
        let n = self.entries.len();
        let mut out: Vec<Summary> = Vec::new();
        let mut i: usize = 0;
        while i < n
            invariant
                self.wf(),
                n == self.entries@.len(),
                i <= n,
                out@.len() == i,
                forall|j: int|
                    #![auto]
                    0 <= j < i ==> out@[j].id@ == self.entries@[j].id@ && out@[j].preview@
                        == preview_of(self.entries@[j].content@) && out@[j].truncated
                        == preview_truncated(self.entries@[j].content@),
            decreases n - i,
        {
            let entry_id = self.entries[i].id.clone();
            let (p, t) = preview(&self.entries[i].content);
            out.push(Summary { id: entry_id, preview: p, truncated: t });
            i = i + 1;
        }
        proof {
            assert forall|j: int| #![auto] 0 <= j < out@.len() implies self@.contains_key(
                out@[j].id@,
            ) && out@[j].preview@ == preview_of(self@[out@[j].id@]) && out@[j].truncated
                == preview_truncated(self@[out@[j].id@]) by {
                lemma_idx_of(self.entries@, self.entries@[j].id@, j);
            }
            assert forall|k: Seq<char>| self@.contains_key(k) implies exists|i2: int|
                0 <= i2 < out@.len() && out@[i2].id@ == k by {
                let w = idx_of(self.entries@, k);
                assert(0 <= w < self.entries@.len() && self.entries@[w].id@ == k);
                assert(out@[w].id@ == k);
            }
        }
        out
    }
}

/// Law: after storing `bytes` under `id`, reading `id` back yields exactly
/// `bytes`, byte for byte, whatever the bytes hold — empty content and
/// embedded line terminators included. `put` ensures the store's view
/// becomes `contents.insert(id, bytes)`; `get` then succeeds and returns
/// the view at `id`.
pub proof fn lemma_put_then_get(contents: Map<Seq<char>, Seq<u8>>, id: Seq<char>, bytes: Seq<u8>)
    ensures
        contents.insert(id, bytes).contains_key(id),
        contents.insert(id, bytes)[id] == bytes,
{
}

/// Law: storing under one identifier twice keeps only the second content —
/// overwrite, never append. After the two `put`s, `get` returns `second`.
pub proof fn lemma_put_overwrites(
    contents: Map<Seq<char>, Seq<u8>>,
    id: Seq<char>,
    first: Seq<u8>,
    second: Seq<u8>,
)
    ensures
        contents.insert(id, first).insert(id, second).contains_key(id),
        contents.insert(id, first).insert(id, second)[id] == second,
{
}

/// Law: a deleted identifier has no content. `delete` on a present `id`
/// ensures the store's view becomes `contents.remove(id)`; `get` on that
/// view returns `NotFound`.
pub proof fn lemma_get_after_delete(contents: Map<Seq<char>, Seq<u8>>, id: Seq<char>)
    ensures
        !contents.remove(id).contains_key(id),
{
}

/// Default name of the storage root directory.
pub fn default_root() -> (r: &'static str)
    ensures
        r@ == "upload"@,
{
    "upload"
}

/// The path of the resource backing `id` under the storage root `root`:
/// the root, a separator, and the identifier's literal string form — a
/// flat namespace, one resource per identifier.
pub fn storage_path(root: &str, id: &PasteID) -> (r: String)
    ensures
        r@ == root@ + seq!['/'] + id@,
{
    let mut p = root.to_owned();
    p.append("/");
    p.append(id.as_str());
    proof {
        reveal_strlit("/");
        assert("/"@ =~= seq!['/']);
        assert(p@ =~= root@ + seq!['/'] + id@);
    }
    p
}

} // verus!
