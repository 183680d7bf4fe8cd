//! Splitting a payload into fragments and putting the fragments of one
//! session together again.

use vstd::prelude::*;
use vstd::slice::slice_subrange;
use crate::error::ProtocolError;
use crate::packet::{frame, padded, Fragment, FRAGMENT_CAPACITY};

verus! {

/// Number of fragments that a payload of `len` bytes is split into: the
/// payload length divided by the fragment capacity, rounded up, and one for
/// the empty payload.
pub open spec fn fragment_count(len: nat) -> nat {
    if len == 0 {
        1
    } else {
        ((len + FRAGMENT_CAPACITY - 1) / (FRAGMENT_CAPACITY as int)) as nat
    }
}

/// The bytes of a payload that fragment `i` carries.
pub open spec fn chunk(payload: Seq<u8>, i: int) -> Seq<u8> {
    let start = i * FRAGMENT_CAPACITY;
    let end = if start + FRAGMENT_CAPACITY <= payload.len() {
        start + FRAGMENT_CAPACITY
    } else {
        payload.len() as int
    };
    payload.subrange(start, end)
}

/// The fragment is piece `i` of the split of `payload`: it carries chunk
/// `i`, padded with zeros, and knows its index and the number of fragments.
pub open spec fn is_fragment_of(fragment: Fragment, payload: Seq<u8>, i: int) -> bool {
    &&& fragment.fragment_index == i
    &&& fragment.total_n_fragments == fragment_count(payload.len())
    &&& fragment.length == chunk(payload, i).len()
    &&& fragment.data@ == padded(chunk(payload, i))
}

/// `fragments` is the split of `payload`: as many fragments as the payload
/// needs, and fragment `i` is piece `i`.
pub open spec fn is_fragmentation(fragments: Seq<Fragment>, payload: Seq<u8>) -> bool {
    &&& fragments.len() == fragment_count(payload.len())
    &&& forall|i: int|
        #![trigger fragments[i]]
        0 <= i < fragments.len() ==> is_fragment_of(fragments[i], payload, i)
}

/// Splits a payload into fragments of at most 128 bytes, in payload order.
///
/// The empty payload gives one fragment of length zero. Every fragment is
/// well formed.
pub fn fragment(payload: &[u8]) -> (fragments: Vec<Fragment>)
    ensures
        is_fragmentation(fragments@, payload@),
        forall|i: int| 0 <= i < fragments@.len() ==> (#[trigger] fragments@[i]).well_formed(),
{
    let len: usize = payload.len();
    let total: usize = if len == 0 {
        1
    } else {
        (len - 1) / FRAGMENT_CAPACITY + 1
    };
    assert(total == fragment_count(payload@.len()));
    let mut fragments: Vec<Fragment> = Vec::new();
    let mut i: usize = 0;
    while i < total
        invariant
            len == payload@.len(),
            total == fragment_count(payload@.len()),
            i <= total,
            fragments@.len() == i,
            forall|j: int|
                #![trigger fragments@[j]]
                0 <= j < i ==> {
                    &&& fragments@[j].fragment_index == j
                    &&& fragments@[j].total_n_fragments == total
                    &&& fragments@[j].length == chunk(payload@, j).len()
                    &&& fragments@[j].data@ == padded(chunk(payload@, j))
                    &&& fragments@[j].well_formed()
                },
        decreases total - i,
    {
        let start: usize = i * FRAGMENT_CAPACITY;
        let end: usize = if len - start >= FRAGMENT_CAPACITY {
            start + FRAGMENT_CAPACITY
        } else {
            len
        };
        let piece = slice_subrange(payload, start, end);
        assert(piece@ == chunk(payload@, i as int));
        fragments.push(frame(i as u64, total as u64, piece));
        i = i + 1;
    }
    fragments
}

/// Two fragments say the same thing: the same session size, the same length,
/// the same payload bytes. Padding is not compared.
pub open spec fn same_content(a: Fragment, b: Fragment) -> bool {
    &&& a.total_n_fragments == b.total_n_fragments
    &&& a.length == b.length
    &&& a.payload() == b.payload()
}

/// Some fragment claims more payload than its buffer holds.
pub open spec fn has_oversized(fragments: Seq<Fragment>) -> bool {
    exists|i: int| 0 <= i < fragments.len() && (#[trigger] fragments[i]).length > FRAGMENT_CAPACITY
}

/// Two fragments carry the same index and differ in content.
pub open spec fn has_conflict(fragments: Seq<Fragment>) -> bool {
    exists|i: int, j: int|
        0 <= i < j < fragments.len() && (#[trigger] fragments[i]).fragment_index == (
        #[trigger] fragments[j]).fragment_index && !same_content(fragments[i], fragments[j])
}

/// Some fragment carries index `k`.
pub open spec fn covers(fragments: Seq<Fragment>, k: int) -> bool {
    exists|i: int| 0 <= i < fragments.len() && (#[trigger] fragments[i]).fragment_index == k
}

/// The fragments make up one whole session: there is at least one, all agree
/// on the number of fragments, every index lies below that number, and every
/// index below that number is there.
pub open spec fn is_whole_session(fragments: Seq<Fragment>) -> bool {
    &&& fragments.len() > 0
    &&& forall|i: int|
        #![trigger fragments[i]]
        0 <= i < fragments.len() ==> {
            &&& fragments[i].total_n_fragments == fragments[0].total_n_fragments
            &&& fragments[i].fragment_index < fragments[0].total_n_fragments
        }
    &&& forall|k: int| 0 <= k < fragments[0].total_n_fragments ==> #[trigger] covers(fragments, k)
}

/// The payload bytes that the session holds for index `k`.
pub open spec fn piece(fragments: Seq<Fragment>, k: int) -> Seq<u8> {
    let i = choose|i: int|
        0 <= i < fragments.len() && (#[trigger] fragments[i]).fragment_index == k;
    fragments[i].payload()
}

/// The pieces of the indices below `n`, one after the other.
pub open spec fn assembled(fragments: Seq<Fragment>, n: nat) -> Seq<u8>
    decreases n,
{
    if n == 0 {
        Seq::<u8>::empty()
    } else {
        assembled(fragments, (n - 1) as nat) + piece(fragments, n - 1)
    }
}

/// What putting the fragments together gives.
///
/// A fragment that claims more than its buffer is a framing error. Two
/// fragments with one index and different content are a duplicate; with the
/// same content the second one counts for nothing. Fragments that are not one
/// whole session are incomplete. Otherwise the payload is the pieces in
/// index order, in whatever order the fragments came.
pub open spec fn reassembly(fragments: Seq<Fragment>) -> Result<Seq<u8>, ProtocolError> {
    if has_oversized(fragments) {
        Err(ProtocolError::FragmentTooLarge)
    } else if has_conflict(fragments) {
        Err(ProtocolError::DuplicateFragment)
    } else if !is_whole_session(fragments) {
        Err(ProtocolError::IncompleteSession)
    } else {
        Ok(assembled(fragments, fragments[0].total_n_fragments as nat))
    }
}

/// Compares what two fragments say.
fn content_equal(a: &Fragment, b: &Fragment) -> (equal: bool)
    requires
        a.length <= FRAGMENT_CAPACITY,
        b.length <= FRAGMENT_CAPACITY,
    ensures
        equal == same_content(*a, *b),
{
    if a.total_n_fragments != b.total_n_fragments || a.length != b.length {
        return false;
    }
    let n: usize = a.length as usize;
    let mut i: usize = 0;
    while i < n
        invariant
            n == a.length,
            n == b.length,
            n <= FRAGMENT_CAPACITY,
            i <= n,
            forall|j: int| 0 <= j < i ==> a.data@[j] == b.data@[j],
        decreases n - i,
    {
        if a.data[i] != b.data[i] {
            assert(a.payload()[i as int] != b.payload()[i as int]);
            return false;
        }
        i = i + 1;
    }
    assert(a.payload() =~= b.payload());
    true
}

/// Position of the first fragment that carries index `k`.
fn find_index(fragments: &[Fragment], k: u64) -> (found: Option<usize>)
    ensures
        found matches Some(i) ==> i < fragments@.len() && fragments@[i as int].fragment_index == k,
        found is None ==> !covers(fragments@, k as int),
{
    let mut i: usize = 0;
    while i < fragments.len()
        invariant
            i <= fragments@.len(),
            forall|j: int| 0 <= j < i ==> (#[trigger] fragments@[j]).fragment_index != k,
        decreases fragments@.len() - i,
    {
        if fragments[i].fragment_index == k {
            return Some(i);
        }
        i = i + 1;
    }
    None
}

/// Puts the fragments of one session together again.
///
/// The fragments may come in any order. The result is `reassembly` of them:
/// the payload, or the error that says why there is none.
pub fn reassemble(fragments: &[Fragment]) -> (result: Result<Vec<u8>, ProtocolError>)
    ensures
        match result {
            Ok(payload) => reassembly(fragments@) == Ok::<Seq<u8>, ProtocolError>(payload@),
            Err(e) => reassembly(fragments@) == Err::<Seq<u8>, ProtocolError>(e),
        },
{
    let n: usize = fragments.len();
    let mut i: usize = 0;
    while i < n
        invariant
            n == fragments@.len(),
            i <= n,
            forall|j: int| 0 <= j < i ==> (#[trigger] fragments@[j]).length <= FRAGMENT_CAPACITY,
        decreases n - i,
    {
        if fragments[i].length as usize > FRAGMENT_CAPACITY {
            return Err(ProtocolError::FragmentTooLarge);
        }
        i = i + 1;
    }
    assert(!has_oversized(fragments@));
    let mut a: usize = 0;
    while a < n
        invariant
            n == fragments@.len(),
            a <= n,
            !has_oversized(fragments@),
            forall|j: int| 0 <= j < n ==> (#[trigger] fragments@[j]).length <= FRAGMENT_CAPACITY,
            forall|x: int, y: int|
                #![trigger fragments@[x], fragments@[y]]
                0 <= x < a && x < y < n && fragments@[x].fragment_index
                    == fragments@[y].fragment_index ==> same_content(fragments@[x], fragments@[y]),
        decreases n - a,
    {
        let mut b: usize = a + 1;
        while b < n
            invariant
                n == fragments@.len(),
                a < n,
                a < b <= n,
                forall|j: int|
                    0 <= j < n ==> (#[trigger] fragments@[j]).length <= FRAGMENT_CAPACITY,
                forall|y: int|
                    #![trigger fragments@[y]]
                    a < y < b && fragments@[a as int].fragment_index
                        == fragments@[y].fragment_index ==> same_content(
                        fragments@[a as int],
                        fragments@[y],
                    ),
            decreases n - b,
        {
            if fragments[a].fragment_index == fragments[b].fragment_index && !content_equal(
                &fragments[a],
                &fragments[b],
            ) {
                assert(has_conflict(fragments@));
                return Err(ProtocolError::DuplicateFragment);
            }
            b = b + 1;
        }
        a = a + 1;
    }
    assert(!has_conflict(fragments@));
    if n == 0 {
        return Err(ProtocolError::IncompleteSession);
    }
    let total: u64 = fragments[0].total_n_fragments;
    let mut m: usize = 0;
    while m < n
        invariant
            n == fragments@.len(),
            n > 0,
            m <= n,
            total == fragments@[0].total_n_fragments,
            !has_oversized(fragments@),
            !has_conflict(fragments@),
            forall|j: int|
                #![trigger fragments@[j]]
                0 <= j < m ==> {
                    &&& fragments@[j].total_n_fragments == total
                    &&& fragments@[j].fragment_index < total
                },
        decreases n - m,
    {
        if fragments[m].total_n_fragments != total || fragments[m].fragment_index >= total {
            assert(!is_whole_session(fragments@));
            return Err(ProtocolError::IncompleteSession);
        }
        m = m + 1;
    }
    let mut payload: Vec<u8> = Vec::new();
    let mut k: u64 = 0;
    while k < total
        invariant
            n == fragments@.len(),
            n > 0,
            total == fragments@[0].total_n_fragments,
            k <= total,
            !has_oversized(fragments@),
            !has_conflict(fragments@),
            forall|j: int| 0 <= j < n ==> (#[trigger] fragments@[j]).length <= FRAGMENT_CAPACITY,
            forall|j: int|
                #![trigger fragments@[j]]
                0 <= j < n ==> {
                    &&& fragments@[j].total_n_fragments == total
                    &&& fragments@[j].fragment_index < total
                },
            forall|c: int| 0 <= c < k ==> #[trigger] covers(fragments@, c),
            payload@ == assembled(fragments@, k as nat),
        decreases total - k,
    {
        match find_index(fragments, k) {
            None => {
                assert(!is_whole_session(fragments@));
                return Err(ProtocolError::IncompleteSession);
            },
            Some(at) => {
                proof {
                    lemma_piece(fragments@, at as int);
                }
                let source = &fragments[at];
                let len: usize = source.length as usize;
                let ghost before = payload@;
                let mut j: usize = 0;
                while j < len
                    invariant
                        len == source.length,
                        len <= FRAGMENT_CAPACITY,
                        j <= len,
                        payload@ == before + source.payload().take(j as int),
                    decreases len - j,
                {
                    payload.push(source.data[j]);
                    assert(source.payload().take(j as int).push(source.data@[j as int])
                        =~= source.payload().take(j + 1));
                    assert(payload@ =~= before + source.payload().take(j + 1));
                    j = j + 1;
                }
                assert(source.payload().take(len as int) =~= source.payload());
            },
        }
        k = k + 1;
    }
    assert(is_whole_session(fragments@));
    Ok(payload)
}

/// Where no two fragments conflict, the piece for an index is the payload of
/// any fragment that carries the index.
pub proof fn lemma_piece(fragments: Seq<Fragment>, at: int)
    requires
        0 <= at < fragments.len(),
        !has_conflict(fragments),
    ensures
        piece(fragments, fragments[at].fragment_index as int) == fragments[at].payload(),
{
    let k = fragments[at].fragment_index as int;
    let i = choose|i: int|
        0 <= i < fragments.len() && (#[trigger] fragments[i]).fragment_index == k;
    if i < at {
        assert(same_content(fragments[i], fragments[at]));
    } else if at < i {
        assert(same_content(fragments[at], fragments[i]));
    }
}

/// The number of fragments is the least number of full buffers that hold the
/// payload, and one for the empty payload.
pub proof fn lemma_fragment_count_is_ceiling(len: nat)
    ensures
        len == 0 ==> fragment_count(len) == 1,
        len > 0 ==> FRAGMENT_CAPACITY * (fragment_count(len) - 1) < len <= FRAGMENT_CAPACITY
            * fragment_count(len),
{
}

/// Every fragment of a split is well formed: its length fits the buffer and
/// its index lies below the number of fragments. The last fragment carries
/// what is left of the payload, the others are full.
pub proof fn lemma_fragmentation_well_formed(fragments: Seq<Fragment>, payload: Seq<u8>)
    requires
        is_fragmentation(fragments, payload),
    ensures
        fragments.len() >= 1,
        forall|i: int| 0 <= i < fragments.len() ==> (#[trigger] fragments[i]).well_formed(),
        forall|i: int|
            0 <= i < fragments.len() - 1 ==> (#[trigger] fragments[i]).length == FRAGMENT_CAPACITY,
        fragments.last().length == payload.len() - FRAGMENT_CAPACITY * (fragments.len() - 1),
        payload.len() == 0 ==> fragments.len() == 1 && fragments[0].length == 0,
{
    lemma_fragment_count_is_ceiling(payload.len());
    assert forall|i: int| 0 <= i < fragments.len() implies (#[trigger] fragments[i]).well_formed()
        && (i < fragments.len() - 1 ==> fragments[i].length == FRAGMENT_CAPACITY) by {
        assert(fragments[i].length == chunk(payload, i).len());
    }
    assert(fragments.last().length == chunk(payload, fragments.len() - 1).len());
}

/// The pieces below `n` of a split are the payload up to the end of chunk
/// `n - 1`.
proof fn lemma_assembled_prefix(fragments: Seq<Fragment>, payload: Seq<u8>, n: nat)
    requires
        is_fragmentation(fragments, payload),
        !has_conflict(fragments),
        n <= fragments.len(),
    ensures
        assembled(fragments, n) == payload.take(
            if FRAGMENT_CAPACITY * n <= payload.len() {
                (FRAGMENT_CAPACITY * n) as int
            } else {
                payload.len() as int
            },
        ),
    decreases n,
{
    lemma_fragment_count_is_ceiling(payload.len());
    if n == 0 {
        assert(payload.take(0) =~= Seq::<u8>::empty());
    } else {
        let k = n - 1;
        lemma_assembled_prefix(fragments, payload, k as nat);
        lemma_piece(fragments, k);
        assert(fragments[k].fragment_index == k);
        assert(fragments[k].payload() =~= chunk(payload, k));
        let start = FRAGMENT_CAPACITY * k;
        let end = if FRAGMENT_CAPACITY * n <= payload.len() {
            (FRAGMENT_CAPACITY * n) as int
        } else {
            payload.len() as int
        };
        assert(payload.take(start) + payload.subrange(start, end) =~= payload.take(end));
    }
}

/// Round trip: the fragments that a payload is split into give the payload
/// back when they are put together.
pub proof fn lemma_round_trip(fragments: Seq<Fragment>, payload: Seq<u8>)
    requires
        is_fragmentation(fragments, payload),
    ensures
        reassembly(fragments) == Ok::<Seq<u8>, ProtocolError>(payload),
{
    lemma_fragmentation_well_formed(fragments, payload);
    lemma_fragment_count_is_ceiling(payload.len());
    assert(!has_oversized(fragments));
    assert(!has_conflict(fragments));
    assert forall|k: int| 0 <= k < fragments[0].total_n_fragments implies #[trigger] covers(
        fragments,
        k,
    ) by {
        assert(fragments[k].fragment_index == k);
    }
    assert(is_whole_session(fragments));
    lemma_assembled_prefix(fragments, payload, fragments.len());
    assert(payload.take(payload.len() as int) =~= payload);
}

/// The two collections hold the same fragments, in whatever order and
/// however often.
pub open spec fn same_fragments(a: Seq<Fragment>, b: Seq<Fragment>) -> bool {
    forall|f: Fragment| a.contains(f) <==> b.contains(f)
}

/// Whatever tells against the fragments of one collection tells against
/// those of a collection that holds them all.
proof fn lemma_faults_carry_over(a: Seq<Fragment>, b: Seq<Fragment>)
    requires
        forall|f: Fragment| a.contains(f) ==> b.contains(f),
    ensures
        has_oversized(a) ==> has_oversized(b),
        has_conflict(a) ==> has_conflict(b),
        forall|k: int| covers(a, k) ==> covers(b, k),
{
    if has_oversized(a) {
        let i = choose|i: int| 0 <= i < a.len() && (#[trigger] a[i]).length > FRAGMENT_CAPACITY;
        assert(a.contains(a[i]));
        let p = choose|p: int| 0 <= p < b.len() && b[p] == a[i];
        assert(b[p].length > FRAGMENT_CAPACITY);
    }
    if has_conflict(a) {
        let (i, j) = choose|i: int, j: int|
            0 <= i < j < a.len() && (#[trigger] a[i]).fragment_index == (
            #[trigger] a[j]).fragment_index && !same_content(a[i], a[j]);
        assert(a.contains(a[i]));
        assert(a.contains(a[j]));
        let p = choose|p: int| 0 <= p < b.len() && b[p] == a[i];
        let q = choose|q: int| 0 <= q < b.len() && b[q] == a[j];
        if p < q {
            assert(b[p].fragment_index == b[q].fragment_index && !same_content(b[p], b[q]));
        } else {
            assert(b[q].fragment_index == b[p].fragment_index && !same_content(b[q], b[p]));
        }
    }
    assert forall|k: int| covers(a, k) implies covers(b, k) by {
        let i = choose|i: int| 0 <= i < a.len() && (#[trigger] a[i]).fragment_index == k;
        assert(a.contains(a[i]));
        let p = choose|p: int| 0 <= p < b.len() && b[p] == a[i];
        assert(b[p].fragment_index == k);
    }
}

/// A whole session stays whole in a collection that holds the same
/// fragments, and names the same number of fragments.
proof fn lemma_whole_carries_over(a: Seq<Fragment>, b: Seq<Fragment>)
    requires
        same_fragments(a, b),
        is_whole_session(a),
    ensures
        is_whole_session(b),
        b[0].total_n_fragments == a[0].total_n_fragments,
{
    assert(a.contains(a[0]));
    let first = choose|p: int| 0 <= p < b.len() && b[p] == a[0];
    assert forall|i: int| 0 <= i < b.len() implies (#[trigger] b[i]).total_n_fragments
        == a[0].total_n_fragments && b[i].fragment_index < a[0].total_n_fragments by {
        assert(b.contains(b[i]));
        let p = choose|p: int| 0 <= p < a.len() && a[p] == b[i];
        assert(a[p].total_n_fragments == a[0].total_n_fragments);
    }
    assert(b[0].total_n_fragments == a[0].total_n_fragments);
    lemma_faults_carry_over(a, b);
    assert forall|k: int| 0 <= k < b[0].total_n_fragments implies #[trigger] covers(b, k) by {
        assert(covers(a, k));
    }
}

/// Two collections of the same fragments, without conflict, give the same
/// pieces for the indices that they cover.
proof fn lemma_assembled_alike(a: Seq<Fragment>, b: Seq<Fragment>, n: nat)
    requires
        same_fragments(a, b),
        !has_conflict(a),
        !has_conflict(b),
        forall|k: int| 0 <= k < n ==> #[trigger] covers(a, k),
    ensures
        assembled(a, n) == assembled(b, n),
    decreases n,
{
    if n > 0 {
        lemma_assembled_alike(a, b, (n - 1) as nat);
        let k = n - 1;
        assert(covers(a, k));
        let i = choose|i: int| 0 <= i < a.len() && (#[trigger] a[i]).fragment_index == k;
        assert(a.contains(a[i]));
        let p = choose|p: int| 0 <= p < b.len() && b[p] == a[i];
        lemma_piece(a, i);
        lemma_piece(b, p);
    }
}

/// What comes of a reassembly depends on which fragments are there, not on
/// the order in which they came, nor on how often one of them came.
pub proof fn lemma_reassembly_ignores_order(a: Seq<Fragment>, b: Seq<Fragment>)
    requires
        same_fragments(a, b),
    ensures
        reassembly(a) == reassembly(b),
{
    lemma_faults_carry_over(a, b);
    lemma_faults_carry_over(b, a);
    if !has_oversized(a) && !has_conflict(a) {
        if is_whole_session(a) {
            lemma_whole_carries_over(a, b);
            lemma_assembled_alike(a, b, a[0].total_n_fragments as nat);
        } else if is_whole_session(b) {
            lemma_whole_carries_over(b, a);
        }
    }
}

} // verus!
