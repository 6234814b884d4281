//! Steps of the proofs about inputs that begin as one that is read, and then
//! hold a bad point.

use vstd::prelude::*;

use crate::accepting::{
    fault, lead_accepted, lead_start, lemma_a_reach, lemma_b_g1_reach, lemma_b_g2_reach,
    lemma_h_reach, lemma_key_ic, lemma_key_lead_fault, lemma_key_same, lemma_l_reach,
    lemma_products, lemma_section_reach, lemma_section_same,
};
use crate::engine::{CurvePoint, Engine};
use crate::format::{good_point, key, lists, parameters, section, KeyView, ParametersView};
use crate::lemmas::{lemma_key, lemma_section, slot};
use crate::placing::{end_of, ic_start, leads, lemma_good_key_of_size, lemma_place_key, word_at};
use crate::wire::ReadError;

verus! {

/// Where a key ends.
proof fn lemma_key_end<E: Engine>(all: Seq<u8>)
    requires
        key::<E>(all) is Ok,
    ensures
        ({
            let (vk, n) = key::<E>(all)->Ok_0;
            &&& n == end_of(ic_start::<E>(), E::G1Affine::size() as int, vk.ic)
            &&& n <= all.len()
        }),
{
    let (vk, n) = key::<E>(all)->Ok_0;
    lemma_key::<E>(all);
    lemma_good_key_of_size::<E>(vk);
    let rest = all.skip(n as int);
    assert(all.take(n as int) + rest =~= all);
    lemma_place_key::<E>(all, vk, rest);
}

/// Inputs that agree up to some offset agree in each piece before it.
proof fn lemma_agree(x: Seq<u8>, y: Seq<u8>, at: int, start: int, n: int)
    requires
        0 <= start,
        0 <= n,
        start + n <= at,
        at <= x.len(),
        at <= y.len(),
        y.take(at) == x.take(at),
    ensures
        y.subrange(start, start + n) == x.subrange(start, start + n),
        y.skip(start).take(n) == x.skip(start).take(n),
        n <= y.skip(start).len(),
{
    assert forall|k: int| 0 <= k < at implies y[k] == x[k] by {
        assert(y.take(at)[k] == y[k]);
        assert(x.take(at)[k] == x[k]);
    }
    assert(y.subrange(start, start + n) =~= x.subrange(start, start + n));
    assert(y.skip(start).take(n) =~= x.skip(start).take(n));
}

/// A list that is as one that is read, up to some point, and then holds a bad
/// point, has the error of that point.
proof fn lemma_section_corrupted<P: CurvePoint>(
    good: Seq<u8>,
    bytes: Seq<u8>,
    start: int,
    checked: bool,
    points: Seq<Seq<u8>>,
    i: nat,
)
    requires
        0 <= start <= good.len(),
        is_list::<P>(good.skip(start), checked, points),
        i < points.len(),
        start + 4 + i * P::size() <= bytes.len(),
        start + 4 + i * P::size() <= good.len(),
        bytes.take(start + 4 + i * P::size()) == good.take(start + 4 + i * P::size()),
    ensures
        fault::<P>(bytes, start + 4 + i * P::size(), checked) matches Some(e) ==> list_fails::<P>(
            bytes.skip(start),
            checked,
            e,
        ),
{
    reveal(is_list);
    reveal(list_fails);
    let size = P::size() as int;
    let at = start + 4 + i * size;
    let rest = good.skip(start);
    lemma_section::<P>(rest, checked);
    lemma_products(i, P::size());
    lemma_agree(good, bytes, at, start, 4);
    let (x, y) = (good.subrange(start, start + 4), bytes.subrange(start, start + 4));
    assert(x[0] == y[0] && x[1] == y[1] && x[2] == y[2] && x[3] == y[3]);
    assert(rest[0] == good[start] && rest[1] == good[start + 1] && rest[2] == good[start + 2]
        && rest[3] == good[start + 3]);
    assert(word_at(bytes, start) == points.len());
    assert forall|j: int| 0 <= j < i implies good_point::<P>(
        #[trigger] slot(bytes, start + 4, size, j),
        checked,
    ) by {
        assert(0 <= j * size && j * size + size <= i * size) by (nonlinear_arith)
            requires
                0 <= j < i,
                0 <= size,
        ;
        lemma_agree(good, bytes, at, start + 4 + j * size, size);
        assert(slot(rest, 4, size, j) =~= slot(good, start + 4, size, j));
        assert(good_point::<P>(points[j], checked));
    }
    lemma_section_reach::<P>(bytes, start, checked, i);
}

/// The lists behind a key, one behind the other.
proof fn lemma_lists_parts<E: Engine>(vk: KeyView, bytes: Seq<u8>, checked: bool)
    requires
        lists::<E>(vk, bytes, checked) is Ok,
    ensures
        ({
            let (params, used) = lists::<E>(vk, bytes, checked)->Ok_0;
            let n1 = 4 + params.h.len() * E::G1Affine::size();
            let n2 = 4 + params.l.len() * E::G1Affine::size();
            let n3 = 4 + params.a.len() * E::G1Affine::size();
            let n4 = 4 + params.b_g1.len() * E::G1Affine::size();
            let n5 = 4 + params.b_g2.len() * E::G2Affine::size();
            &&& n1 + n2 + n3 + n4 + n5 == used
            &&& used <= bytes.len()
            &&& params.vk == vk
            &&& is_list::<E::G1Affine>(bytes, checked, params.h)
            &&& is_list::<E::G1Affine>(bytes.skip(n1 as int), checked, params.l)
            &&& is_list::<E::G1Affine>(bytes.skip((n1 + n2) as int), checked, params.a)
            &&& is_list::<E::G1Affine>(bytes.skip((n1 + n2 + n3) as int), checked, params.b_g1)
            &&& is_list::<E::G2Affine>(bytes.skip((n1 + n2 + n3 + n4) as int), checked, params.b_g2)
        }),
{
    let (h, n1) = section::<E::G1Affine>(bytes, checked)->Ok_0;
    lemma_is_list::<E::G1Affine>(bytes, checked);
    let (l, n2) = section::<E::G1Affine>(bytes.skip(n1 as int), checked)->Ok_0;
    lemma_is_list::<E::G1Affine>(bytes.skip(n1 as int), checked);
    let (a, n3) = section::<E::G1Affine>(bytes.skip((n1 + n2) as int), checked)->Ok_0;
    lemma_is_list::<E::G1Affine>(bytes.skip((n1 + n2) as int), checked);
    let (b_g1, n4) = section::<E::G1Affine>(bytes.skip((n1 + n2 + n3) as int), checked)->Ok_0;
    lemma_is_list::<E::G1Affine>(bytes.skip((n1 + n2 + n3) as int), checked);
    lemma_is_list::<E::G2Affine>(bytes.skip((n1 + n2 + n3 + n4) as int), checked);
}

/// Whether the bytes begin with a list that is read as the given one.
#[verifier::opaque]
pub(crate) open spec fn is_list<P: CurvePoint>(
    bytes: Seq<u8>,
    checked: bool,
    points: Seq<Seq<u8>>,
) -> bool {
    section::<P>(bytes, checked) == Ok::<(Seq<Seq<u8>>, nat), ReadError>(
        (points, 4 + points.len() * P::size()),
    )
}

/// The size of a list that is read.
proof fn lemma_is_list<P: CurvePoint>(bytes: Seq<u8>, checked: bool)
    requires
        section::<P>(bytes, checked) is Ok,
    ensures
        ({
            let (points, used) = section::<P>(bytes, checked)->Ok_0;
            &&& is_list::<P>(bytes, checked, points)
            &&& used == 4 + points.len() * P::size()
            &&& used <= bytes.len()
        }),
{
    reveal(is_list);
    lemma_section::<P>(bytes, checked);
}

/// Whether the bytes begin with parameters that are read as the given ones.
#[verifier::opaque]
pub(crate) open spec fn reads_as<E: Engine>(
    bytes: Seq<u8>,
    checked: bool,
    params: ParametersView,
    used: nat,
) -> bool {
    parameters::<E>(bytes, checked) == Ok::<(ParametersView, nat), ReadError>((params, used))
}

/// Whether parameters are refused with an error.
#[verifier::opaque]
pub(crate) open spec fn fails<E: Engine>(bytes: Seq<u8>, checked: bool, e: ReadError) -> bool {
    parameters::<E>(bytes, checked) == Err::<(ParametersView, nat), ReadError>(e)
}

/// Whether a list is refused with an error.
#[verifier::opaque]
pub(crate) open spec fn list_fails<P: CurvePoint>(
    bytes: Seq<u8>,
    checked: bool,
    e: ReadError,
) -> bool {
    section::<P>(bytes, checked) == Err::<(Seq<Seq<u8>>, nat), ReadError>(e)
}

/// Whether the bytes begin with a key that uses the given number of bytes.
#[verifier::opaque]
pub(crate) open spec fn key_ends<E: Engine>(bytes: Seq<u8>, n: int) -> bool {
    key::<E>(bytes) is Ok && key::<E>(bytes)->Ok_0.1 == n
}

/// Where the lists of parameters that are read begin.
proof fn lemma_starts<E: Engine>(bytes: Seq<u8>, checked: bool, params: ParametersView, used: nat)
    requires
        reads_as::<E>(bytes, checked, params, used),
    ensures
        ({
            let g1 = E::G1Affine::size() as int;
            let h = end_of(ic_start::<E>(), g1, params.vk.ic);
            let l = end_of(h, g1, params.h);
            let a = end_of(l, g1, params.l);
            let b_g1 = end_of(a, g1, params.a);
            let b_g2 = end_of(b_g1, g1, params.b_g1);
            let end = end_of(b_g2, E::G2Affine::size() as int, params.b_g2);
            &&& 0 <= h <= l <= a <= b_g1 <= b_g2 <= end <= bytes.len()
            &&& key_ends::<E>(bytes, h)
            &&& is_list::<E::G1Affine>(bytes.skip(h), checked, params.h)
            &&& is_list::<E::G1Affine>(bytes.skip(l), checked, params.l)
            &&& is_list::<E::G1Affine>(bytes.skip(a), checked, params.a)
            &&& is_list::<E::G1Affine>(bytes.skip(b_g1), checked, params.b_g1)
            &&& is_list::<E::G2Affine>(bytes.skip(b_g2), checked, params.b_g2)
        }),
{
    reveal(reads_as);
    reveal(key_ends);
    let (vk, n0) = key::<E>(bytes)->Ok_0;
    lemma_key_end::<E>(bytes);
    let rest = bytes.skip(n0 as int);
    lemma_lists_parts::<E>(vk, rest, checked);
    let n1 = 4 + params.h.len() * E::G1Affine::size();
    let n2 = 4 + params.l.len() * E::G1Affine::size();
    let n3 = 4 + params.a.len() * E::G1Affine::size();
    let n4 = 4 + params.b_g1.len() * E::G1Affine::size();
    assert(rest.skip(n1 as int) =~= bytes.skip((n0 + n1) as int));
    assert(rest.skip((n1 + n2) as int) =~= bytes.skip((n0 + n1 + n2) as int));
    assert(rest.skip((n1 + n2 + n3) as int) =~= bytes.skip((n0 + n1 + n2 + n3) as int));
    assert(rest.skip((n1 + n2 + n3 + n4) as int) =~= bytes.skip((n0 + n1 + n2 + n3 + n4) as int));
}

/// A point of a list ends within it.
proof fn lemma_within(i: nat, n: nat, size: nat)
    requires
        i < n,
    ensures
        i * size + size <= n * size,
{
    assert(i * size + size <= n * size) by (nonlinear_arith)
        requires
            i < n,
    ;
}

/// A list is read as the same one where the bytes are the same.
proof fn lemma_list_agrees<P: CurvePoint>(
    good: Seq<u8>,
    bytes: Seq<u8>,
    at: int,
    start: int,
    checked: bool,
    points: Seq<Seq<u8>>,
)
    requires
        0 <= start,
        start + 4 + points.len() * P::size() <= at,
        at <= good.len(),
        at <= bytes.len(),
        bytes.take(at) == good.take(at),
        is_list::<P>(good.skip(start), checked, points),
    ensures
        is_list::<P>(bytes.skip(start), checked, points),
{
    reveal(is_list);
    lemma_products(points.len(), P::size());
    lemma_agree(good, bytes, at, start, 4 + points.len() * (P::size() as int));
    lemma_section_same::<P>(good.skip(start), bytes.skip(start), checked);
}

/// A key is read to the same end where the bytes are the same.
proof fn lemma_key_agrees<E: Engine>(good: Seq<u8>, bytes: Seq<u8>, at: int, n: int)
    requires
        0 <= n <= at,
        at <= good.len(),
        at <= bytes.len(),
        bytes.take(at) == good.take(at),
        key_ends::<E>(good, n),
    ensures
        key_ends::<E>(bytes, n),
{
    reveal(key_ends);
    lemma_agree(good, bytes, at, 0, n);
    assert(good.skip(0) =~= good && bytes.skip(0) =~= bytes);
    lemma_key_same::<E>(good, bytes);
}

/// The error of the list `h` is that of the parameters.
proof fn lemma_h_fails<E: Engine>(
    bytes: Seq<u8>,
    checked: bool,
    params: ParametersView,
    h: int,
    e: ReadError,
)
    requires
        0 <= h,
        key_ends::<E>(bytes, h),
        ({
            &&& h <= bytes.len()
            &&& list_fails::<E::G1Affine>(bytes.skip(h), checked, e)
        }),
    ensures
        fails::<E>(bytes, checked, e),
{
    reveal(key_ends);
    reveal(is_list);
    reveal(list_fails);
    reveal(fails);
    lemma_h_reach::<E>(bytes, checked, h);
}

/// The error of the list `l` is that of the parameters.
proof fn lemma_l_fails<E: Engine>(
    bytes: Seq<u8>,
    checked: bool,
    params: ParametersView,
    h: int,
    e: ReadError,
)
    requires
        0 <= h,
        key_ends::<E>(bytes, h),
        ({
            let g1 = E::G1Affine::size() as int;
            let l = end_of(h, g1, params.h);
            &&& l <= bytes.len()
            &&& is_list::<E::G1Affine>(bytes.skip(h), checked, params.h)
            &&& list_fails::<E::G1Affine>(bytes.skip(l), checked, e)
        }),
    ensures
        fails::<E>(bytes, checked, e),
{
    reveal(key_ends);
    reveal(is_list);
    reveal(list_fails);
    reveal(fails);
    let l = end_of(h, E::G1Affine::size() as int, params.h);
    lemma_products(params.h.len(), E::G1Affine::size());
    lemma_l_reach::<E>(bytes, checked, h, l);
}

/// The error of the list `a` is that of the parameters.
proof fn lemma_a_fails<E: Engine>(
    bytes: Seq<u8>,
    checked: bool,
    params: ParametersView,
    h: int,
    e: ReadError,
)
    requires
        0 <= h,
        key_ends::<E>(bytes, h),
        ({
            let g1 = E::G1Affine::size() as int;
            let l = end_of(h, g1, params.h);
            let a = end_of(l, g1, params.l);
            &&& a <= bytes.len()
            &&& is_list::<E::G1Affine>(bytes.skip(h), checked, params.h)
            &&& is_list::<E::G1Affine>(bytes.skip(l), checked, params.l)
            &&& list_fails::<E::G1Affine>(bytes.skip(a), checked, e)
        }),
    ensures
        fails::<E>(bytes, checked, e),
{
    reveal(key_ends);
    reveal(is_list);
    reveal(list_fails);
    reveal(fails);
    let l = end_of(h, E::G1Affine::size() as int, params.h);
    lemma_products(params.h.len(), E::G1Affine::size());
    let a = end_of(l, E::G1Affine::size() as int, params.l);
    lemma_products(params.l.len(), E::G1Affine::size());
    lemma_a_reach::<E>(bytes, checked, h, l, a);
}

/// The error of the list `b_g1` is that of the parameters.
proof fn lemma_b_g1_fails<E: Engine>(
    bytes: Seq<u8>,
    checked: bool,
    params: ParametersView,
    h: int,
    e: ReadError,
)
    requires
        0 <= h,
        key_ends::<E>(bytes, h),
        ({
            let g1 = E::G1Affine::size() as int;
            let l = end_of(h, g1, params.h);
            let a = end_of(l, g1, params.l);
            let b_g1 = end_of(a, g1, params.a);
            &&& b_g1 <= bytes.len()
            &&& is_list::<E::G1Affine>(bytes.skip(h), checked, params.h)
            &&& is_list::<E::G1Affine>(bytes.skip(l), checked, params.l)
            &&& is_list::<E::G1Affine>(bytes.skip(a), checked, params.a)
            &&& list_fails::<E::G1Affine>(bytes.skip(b_g1), checked, e)
        }),
    ensures
        fails::<E>(bytes, checked, e),
{
    reveal(key_ends);
    reveal(is_list);
    reveal(list_fails);
    reveal(fails);
    let l = end_of(h, E::G1Affine::size() as int, params.h);
    lemma_products(params.h.len(), E::G1Affine::size());
    let a = end_of(l, E::G1Affine::size() as int, params.l);
    lemma_products(params.l.len(), E::G1Affine::size());
    let b_g1 = end_of(a, E::G1Affine::size() as int, params.a);
    lemma_products(params.a.len(), E::G1Affine::size());
    lemma_b_g1_reach::<E>(bytes, checked, h, l, a, b_g1);
}

/// The error of the list `b_g2` is that of the parameters.
proof fn lemma_b_g2_fails<E: Engine>(
    bytes: Seq<u8>,
    checked: bool,
    params: ParametersView,
    h: int,
    e: ReadError,
)
    requires
        0 <= h,
        key_ends::<E>(bytes, h),
        ({
            let g1 = E::G1Affine::size() as int;
            let l = end_of(h, g1, params.h);
            let a = end_of(l, g1, params.l);
            let b_g1 = end_of(a, g1, params.a);
            let b_g2 = end_of(b_g1, g1, params.b_g1);
            &&& b_g2 <= bytes.len()
            &&& is_list::<E::G1Affine>(bytes.skip(h), checked, params.h)
            &&& is_list::<E::G1Affine>(bytes.skip(l), checked, params.l)
            &&& is_list::<E::G1Affine>(bytes.skip(a), checked, params.a)
            &&& is_list::<E::G1Affine>(bytes.skip(b_g1), checked, params.b_g1)
            &&& list_fails::<E::G2Affine>(bytes.skip(b_g2), checked, e)
        }),
    ensures
        fails::<E>(bytes, checked, e),
{
    reveal(key_ends);
    reveal(is_list);
    reveal(list_fails);
    reveal(fails);
    let l = end_of(h, E::G1Affine::size() as int, params.h);
    lemma_products(params.h.len(), E::G1Affine::size());
    let a = end_of(l, E::G1Affine::size() as int, params.l);
    lemma_products(params.l.len(), E::G1Affine::size());
    let b_g1 = end_of(a, E::G1Affine::size() as int, params.a);
    lemma_products(params.a.len(), E::G1Affine::size());
    let b_g2 = end_of(b_g1, E::G1Affine::size() as int, params.b_g1);
    lemma_products(params.b_g1.len(), E::G1Affine::size());
    lemma_b_g2_reach::<E>(bytes, checked, h, l, a, b_g1, b_g2);
}

/// A bad point in the list `h` gives its error if everything before is as in an
/// input that is read.
pub(crate) proof fn lemma_h_corrupted<E: Engine>(
    good: Seq<u8>,
    bytes: Seq<u8>,
    checked: bool,
    params: ParametersView,
    used: nat,
    i: nat,
)
    requires
        reads_as::<E>(good, checked, params, used),
        i < params.h.len(),
        ({
            let g1 = E::G1Affine::size() as int;
            let h = end_of(ic_start::<E>(), g1, params.vk.ic);
            let at = h + 4 + i * E::G1Affine::size();
            at <= bytes.len() && bytes.take(at) == good.take(at)
        }),
    ensures
        ({
            let g1 = E::G1Affine::size() as int;
            let h = end_of(ic_start::<E>(), g1, params.vk.ic);
            let at = h + 4 + i * E::G1Affine::size();
            fault::<E::G1Affine>(bytes, at, checked) matches Some(e) ==> fails::<E>(
                bytes,
                checked,
                e,
            )
        }),
{
    let g1 = E::G1Affine::size() as int;
    let h = end_of(ic_start::<E>(), g1, params.vk.ic);
    let at = h + 4 + i * E::G1Affine::size();
    lemma_products(i, E::G1Affine::size());
    lemma_within(i, params.h.len(), E::G1Affine::size());
    lemma_starts::<E>(good, checked, params, used);
    lemma_key_agrees::<E>(good, bytes, at, h);
    lemma_section_corrupted::<E::G1Affine>(good, bytes, h, checked, params.h, i);
    if let Some(e) = fault::<E::G1Affine>(bytes, at, checked) {
        lemma_h_fails::<E>(bytes, checked, params, h, e);
    }
}

/// A bad point in the list `l` gives its error if everything before is as in an
/// input that is read.
pub(crate) proof fn lemma_l_corrupted<E: Engine>(
    good: Seq<u8>,
    bytes: Seq<u8>,
    checked: bool,
    params: ParametersView,
    used: nat,
    i: nat,
)
    requires
        reads_as::<E>(good, checked, params, used),
        i < params.l.len(),
        ({
            let g1 = E::G1Affine::size() as int;
            let h = end_of(ic_start::<E>(), g1, params.vk.ic);
            let l = end_of(h, g1, params.h);
            let at = l + 4 + i * E::G1Affine::size();
            at <= bytes.len() && bytes.take(at) == good.take(at)
        }),
    ensures
        ({
            let g1 = E::G1Affine::size() as int;
            let h = end_of(ic_start::<E>(), g1, params.vk.ic);
            let l = end_of(h, g1, params.h);
            let at = l + 4 + i * E::G1Affine::size();
            fault::<E::G1Affine>(bytes, at, checked) matches Some(e) ==> fails::<E>(
                bytes,
                checked,
                e,
            )
        }),
{
    let g1 = E::G1Affine::size() as int;
    let h = end_of(ic_start::<E>(), g1, params.vk.ic);
    let l = end_of(h, g1, params.h);
    let at = l + 4 + i * E::G1Affine::size();
    lemma_products(i, E::G1Affine::size());
    lemma_within(i, params.l.len(), E::G1Affine::size());
    lemma_starts::<E>(good, checked, params, used);
    lemma_key_agrees::<E>(good, bytes, at, h);
    lemma_list_agrees::<E::G1Affine>(good, bytes, at, h, checked, params.h);
    lemma_section_corrupted::<E::G1Affine>(good, bytes, l, checked, params.l, i);
    if let Some(e) = fault::<E::G1Affine>(bytes, at, checked) {
        lemma_l_fails::<E>(bytes, checked, params, h, e);
    }
}

/// A bad point in the list `a` gives its error if everything before is as in an
/// input that is read.
pub(crate) proof fn lemma_a_corrupted<E: Engine>(
    good: Seq<u8>,
    bytes: Seq<u8>,
    checked: bool,
    params: ParametersView,
    used: nat,
    i: nat,
)
    requires
        reads_as::<E>(good, checked, params, used),
        i < params.a.len(),
        ({
            let g1 = E::G1Affine::size() as int;
            let h = end_of(ic_start::<E>(), g1, params.vk.ic);
            let l = end_of(h, g1, params.h);
            let a = end_of(l, g1, params.l);
            let at = a + 4 + i * E::G1Affine::size();
            at <= bytes.len() && bytes.take(at) == good.take(at)
        }),
    ensures
        ({
            let g1 = E::G1Affine::size() as int;
            let h = end_of(ic_start::<E>(), g1, params.vk.ic);
            let l = end_of(h, g1, params.h);
            let a = end_of(l, g1, params.l);
            let at = a + 4 + i * E::G1Affine::size();
            fault::<E::G1Affine>(bytes, at, checked) matches Some(e) ==> fails::<E>(
                bytes,
                checked,
                e,
            )
        }),
{
    let g1 = E::G1Affine::size() as int;
    let h = end_of(ic_start::<E>(), g1, params.vk.ic);
    let l = end_of(h, g1, params.h);
    let a = end_of(l, g1, params.l);
    let at = a + 4 + i * E::G1Affine::size();
    lemma_products(i, E::G1Affine::size());
    lemma_within(i, params.a.len(), E::G1Affine::size());
    lemma_starts::<E>(good, checked, params, used);
    lemma_key_agrees::<E>(good, bytes, at, h);
    lemma_list_agrees::<E::G1Affine>(good, bytes, at, h, checked, params.h);
    lemma_list_agrees::<E::G1Affine>(good, bytes, at, l, checked, params.l);
    lemma_section_corrupted::<E::G1Affine>(good, bytes, a, checked, params.a, i);
    if let Some(e) = fault::<E::G1Affine>(bytes, at, checked) {
        lemma_a_fails::<E>(bytes, checked, params, h, e);
    }
}

/// A bad point in the list `b_g1` gives its error if everything before is as in an
/// input that is read.
pub(crate) proof fn lemma_b_g1_corrupted<E: Engine>(
    good: Seq<u8>,
    bytes: Seq<u8>,
    checked: bool,
    params: ParametersView,
    used: nat,
    i: nat,
)
    requires
        reads_as::<E>(good, checked, params, used),
        i < params.b_g1.len(),
        ({
            let g1 = E::G1Affine::size() as int;
            let h = end_of(ic_start::<E>(), g1, params.vk.ic);
            let l = end_of(h, g1, params.h);
            let a = end_of(l, g1, params.l);
            let b_g1 = end_of(a, g1, params.a);
            let at = b_g1 + 4 + i * E::G1Affine::size();
            at <= bytes.len() && bytes.take(at) == good.take(at)
        }),
    ensures
        ({
            let g1 = E::G1Affine::size() as int;
            let h = end_of(ic_start::<E>(), g1, params.vk.ic);
            let l = end_of(h, g1, params.h);
            let a = end_of(l, g1, params.l);
            let b_g1 = end_of(a, g1, params.a);
            let at = b_g1 + 4 + i * E::G1Affine::size();
            fault::<E::G1Affine>(bytes, at, checked) matches Some(e) ==> fails::<E>(
                bytes,
                checked,
                e,
            )
        }),
{
    let g1 = E::G1Affine::size() as int;
    let h = end_of(ic_start::<E>(), g1, params.vk.ic);
    let l = end_of(h, g1, params.h);
    let a = end_of(l, g1, params.l);
    let b_g1 = end_of(a, g1, params.a);
    let at = b_g1 + 4 + i * E::G1Affine::size();
    lemma_products(i, E::G1Affine::size());
    lemma_within(i, params.b_g1.len(), E::G1Affine::size());
    lemma_starts::<E>(good, checked, params, used);
    lemma_key_agrees::<E>(good, bytes, at, h);
    lemma_list_agrees::<E::G1Affine>(good, bytes, at, h, checked, params.h);
    lemma_list_agrees::<E::G1Affine>(good, bytes, at, l, checked, params.l);
    lemma_list_agrees::<E::G1Affine>(good, bytes, at, a, checked, params.a);
    lemma_section_corrupted::<E::G1Affine>(good, bytes, b_g1, checked, params.b_g1, i);
    if let Some(e) = fault::<E::G1Affine>(bytes, at, checked) {
        lemma_b_g1_fails::<E>(bytes, checked, params, h, e);
    }
}

/// A bad point in the list `b_g2` gives its error if everything before is as in an
/// input that is read.
pub(crate) proof fn lemma_b_g2_corrupted<E: Engine>(
    good: Seq<u8>,
    bytes: Seq<u8>,
    checked: bool,
    params: ParametersView,
    used: nat,
    i: nat,
)
    requires
        reads_as::<E>(good, checked, params, used),
        i < params.b_g2.len(),
        ({
            let g1 = E::G1Affine::size() as int;
            let h = end_of(ic_start::<E>(), g1, params.vk.ic);
            let l = end_of(h, g1, params.h);
            let a = end_of(l, g1, params.l);
            let b_g1 = end_of(a, g1, params.a);
            let b_g2 = end_of(b_g1, g1, params.b_g1);
            let at = b_g2 + 4 + i * E::G2Affine::size();
            at <= bytes.len() && bytes.take(at) == good.take(at)
        }),
    ensures
        ({
            let g1 = E::G1Affine::size() as int;
            let h = end_of(ic_start::<E>(), g1, params.vk.ic);
            let l = end_of(h, g1, params.h);
            let a = end_of(l, g1, params.l);
            let b_g1 = end_of(a, g1, params.a);
            let b_g2 = end_of(b_g1, g1, params.b_g1);
            let at = b_g2 + 4 + i * E::G2Affine::size();
            fault::<E::G2Affine>(bytes, at, checked) matches Some(e) ==> fails::<E>(
                bytes,
                checked,
                e,
            )
        }),
{
    let g1 = E::G1Affine::size() as int;
    let h = end_of(ic_start::<E>(), g1, params.vk.ic);
    let l = end_of(h, g1, params.h);
    let a = end_of(l, g1, params.l);
    let b_g1 = end_of(a, g1, params.a);
    let b_g2 = end_of(b_g1, g1, params.b_g1);
    let at = b_g2 + 4 + i * E::G2Affine::size();
    lemma_products(i, E::G2Affine::size());
    lemma_within(i, params.b_g2.len(), E::G2Affine::size());
    lemma_starts::<E>(good, checked, params, used);
    lemma_key_agrees::<E>(good, bytes, at, h);
    lemma_list_agrees::<E::G1Affine>(good, bytes, at, h, checked, params.h);
    lemma_list_agrees::<E::G1Affine>(good, bytes, at, l, checked, params.l);
    lemma_list_agrees::<E::G1Affine>(good, bytes, at, a, checked, params.a);
    lemma_list_agrees::<E::G1Affine>(good, bytes, at, b_g1, checked, params.b_g1);
    lemma_section_corrupted::<E::G2Affine>(good, bytes, b_g2, checked, params.b_g2, i);
    if let Some(e) = fault::<E::G2Affine>(bytes, at, checked) {
        lemma_b_g2_fails::<E>(bytes, checked, params, h, e);
    }
}

/// The leading points of a key that is read are accepted, and its list is read.
proof fn lemma_key_starts<E: Engine>(bytes: Seq<u8>, vk: KeyView, n: nat)
    requires
        key::<E>(bytes) == Ok::<(KeyView, nat), ReadError>((vk, n)),
    ensures
        lead_start::<E>(6) <= bytes.len(),
        forall|i: int| 0 <= i < 6 ==> #[trigger] lead_accepted::<E>(bytes, i),
        is_list::<E::G1Affine>(bytes.skip(lead_start::<E>(6)), true, vk.ic),
        n == end_of(ic_start::<E>(), E::G1Affine::size() as int, vk.ic),
        n <= bytes.len(),
{
    lemma_key_end::<E>(bytes);
    lemma_key::<E>(bytes);
    lemma_good_key_of_size::<E>(vk);
    let rest = bytes.skip(n as int);
    assert(bytes.take(n as int) + rest =~= bytes);
    lemma_place_key::<E>(bytes, vk, rest);
    reveal(leads);
    assert(lead_accepted::<E>(bytes, 0) && lead_accepted::<E>(bytes, 1));
    assert(lead_accepted::<E>(bytes, 2) && lead_accepted::<E>(bytes, 3));
    assert(lead_accepted::<E>(bytes, 4) && lead_accepted::<E>(bytes, 5));
    lemma_key_ic::<E>(bytes);
    lemma_is_list::<E::G1Affine>(bytes.skip(lead_start::<E>(6)), true);
}

/// A leading point is accepted where the bytes are the same.
proof fn lemma_lead_agrees<E: Engine>(good: Seq<u8>, bytes: Seq<u8>, at: int, i: int)
    requires
        0 <= i < 6,
        lead_start::<E>(i + 1) <= at,
        at <= good.len(),
        at <= bytes.len(),
        bytes.take(at) == good.take(at),
        lead_accepted::<E>(good, i),
    ensures
        lead_accepted::<E>(bytes, i),
{
    lemma_agree(
        good,
        bytes,
        at,
        lead_start::<E>(i),
        lead_start::<E>(i + 1) - lead_start::<E>(i),
    );
}

/// A bad leading point gives its error if the points before are as in a key that
/// is read.
pub(crate) proof fn lemma_lead_corrupted<E: Engine>(
    good: Seq<u8>,
    bytes: Seq<u8>,
    vk: KeyView,
    n: nat,
    k: int,
)
    requires
        key::<E>(good) == Ok::<(KeyView, nat), ReadError>((vk, n)),
        0 <= k < 6,
        lead_start::<E>(k) <= bytes.len(),
        bytes.take(lead_start::<E>(k)) == good.take(lead_start::<E>(k)),
    ensures
        lead_start::<E>(k + 1) > bytes.len() ==> key::<E>(bytes) == Err::<
            (KeyView, nat),
            ReadError,
        >(ReadError::UnexpectedEof),
        lead_start::<E>(k + 1) <= bytes.len() && !lead_accepted::<E>(bytes, k) ==> key::<E>(bytes)
            == Err::<(KeyView, nat), ReadError>(ReadError::NotOnCurve),
{
    lemma_key_starts::<E>(good, vk, n);
    assert forall|i: int| 0 <= i < k implies #[trigger] lead_accepted::<E>(bytes, i) by {
        assert(lead_accepted::<E>(good, i));
        lemma_lead_agrees::<E>(good, bytes, lead_start::<E>(k), i);
    }
    lemma_key_lead_fault::<E>(bytes, k);
}

/// A bad point in the list of a key gives its error if everything before is as in
/// a key that is read.
pub(crate) proof fn lemma_ic_corrupted<E: Engine>(
    good: Seq<u8>,
    bytes: Seq<u8>,
    vk: KeyView,
    n: nat,
    i: nat,
)
    requires
        key::<E>(good) == Ok::<(KeyView, nat), ReadError>((vk, n)),
        i < vk.ic.len(),
        ({
            let at = ic_start::<E>() + 4 + i * E::G1Affine::size();
            at <= bytes.len() && bytes.take(at) == good.take(at)
        }),
    ensures
        fault::<E::G1Affine>(
            bytes,
            ic_start::<E>() + 4 + i * E::G1Affine::size(),
            true,
        ) matches Some(e) ==> key::<E>(bytes) == Err::<(KeyView, nat), ReadError>(e),
{
    let at = ic_start::<E>() + 4 + i * E::G1Affine::size();
    lemma_products(i, E::G1Affine::size());
    lemma_within(i, vk.ic.len(), E::G1Affine::size());
    lemma_key_starts::<E>(good, vk, n);
    assert forall|j: int| 0 <= j < 6 implies #[trigger] lead_accepted::<E>(bytes, j) by {
        assert(lead_accepted::<E>(good, j));
        lemma_lead_agrees::<E>(good, bytes, at, j);
    }
    lemma_section_corrupted::<E::G1Affine>(good, bytes, ic_start::<E>(), true, vk.ic, i);
    reveal(list_fails);
    lemma_key_ic::<E>(bytes);
}

} // verus!
