//! Steps of the proofs about which inputs are read, and which error is given
//! where one is not.

use vstd::prelude::*;

use crate::engine::{CurvePoint, Engine};
use crate::format::{
    advance, good_point, key, key_point, key_point_size, key_points_from, parameters, points_from,
    section, KeyView, ParametersView,
};
use crate::lemmas::{lemma_key, lemma_key_of_bytes, lemma_section, lemma_section_of_bytes, slot};
use crate::placing::word_at;
use crate::wire::{be32, ReadError};

verus! {

/// The error of a finite point whose bytes begin at an offset, if there is one.
pub(crate) open spec fn fault<P: CurvePoint>(all: Seq<u8>, at: int, checked: bool) -> Option<
    ReadError,
> {
    let end = at + P::size() as int;
    if end > all.len() {
        Some(ReadError::UnexpectedEof)
    } else if !P::admits(all.subrange(at, end), checked) {
        Some(ReadError::NotOnCurve)
    } else if P::at_infinity(all.subrange(at, end)) {
        Some(ReadError::PointAtInfinity)
    } else {
        None
    }
}

/// The points of a list are read one by one.
pub(crate) proof fn lemma_points_reach<P: CurvePoint>(
    got: Seq<Seq<u8>>,
    count: nat,
    bytes: Seq<u8>,
    checked: bool,
    k: nat,
)
    requires
        got.len() + k <= count,
        k * P::size() <= bytes.len(),
        forall|i: int|
            0 <= i < k ==> good_point::<P>(#[trigger] slot(bytes, 0, P::size() as int, i), checked),
    ensures
        points_from::<P>(got, count, bytes, checked) == advance(
            points_from::<P>(
                got + Seq::new(k, |i: int| slot(bytes, 0, P::size() as int, i)),
                count,
                bytes.skip((k * P::size()) as int),
                checked,
            ),
            k * P::size(),
        ),
    decreases k,
{
    let size = P::size() as int;
    let more = Seq::new(k, |i: int| slot(bytes, 0, size, i));
    if k == 0 {
        assert(0 * size == 0);
        assert(got + more =~= got);
        assert(bytes.skip(0) =~= bytes);
    } else {
        let first = slot(bytes, 0, size, 0);
        let rest = bytes.skip(size);
        let left = (k - 1) as nat;
        assert(k * size == left * size + size) by (nonlinear_arith)
            requires
                k == left + 1,
        ;
        assert(0 <= left * size) by (nonlinear_arith)
            requires
                0 <= left,
                0 <= size,
        ;
        assert(0 * size == 0);
        assert(first =~= bytes.take(size));
        assert(good_point::<P>(first, checked));
        assert forall|i: int| 0 <= i < left implies #[trigger] slot(rest, 0, size, i) == slot(
            bytes,
            0,
            size,
            i + 1,
        ) by {
            assert((i + 1) * size == i * size + size) by (nonlinear_arith);
            assert(0 <= i * size && i * size + size <= left * size) by (nonlinear_arith)
                requires
                    0 <= i < left,
                    0 <= size,
            ;
            assert(slot(rest, 0, size, i) =~= slot(bytes, 0, size, i + 1));
        }
        lemma_points_reach::<P>(got.push(first), count, rest, checked, left);
        assert(got.push(first) + Seq::new(left, |i: int| slot(rest, 0, size, i)) =~= got + more);
        assert(rest.skip(left * size) =~= bytes.skip(k * size));
    }
}

/// A list of accepted finite points behind their number is read, and a list is
/// refused for the first point that is not.
pub(crate) proof fn lemma_section_reach<P: CurvePoint>(
    all: Seq<u8>,
    at: int,
    checked: bool,
    k: nat,
)
    requires
        0 <= at,
        at + 4 + k * P::size() <= all.len(),
        k <= word_at(all, at),
        forall|i: int|
            0 <= i < k ==> good_point::<P>(
                #[trigger] slot(all, at + 4, P::size() as int, i),
                checked,
            ),
    ensures
        k == word_at(all, at) ==> {
            &&& section::<P>(all.skip(at), checked) matches Ok((points, used))
            &&& used == 4 + k * P::size()
        },
        k < word_at(all, at) ==> (fault::<P>(all, at + 4 + k * P::size(), checked) matches Some(e)
            ==> section::<P>(all.skip(at), checked) == Err::<(Seq<Seq<u8>>, nat), ReadError>(e)),
{
    let size = P::size() as int;
    let head = all.skip(at);
    let bytes = head.skip(4);
    let none = Seq::<Seq<u8>>::empty();
    assert(head[0] == all[at] && head[1] == all[at + 1] && head[2] == all[at + 2] && head[3]
        == all[at + 3]);
    assert(be32(head) == word_at(all, at));
    assert forall|i: int| 0 <= i < k implies good_point::<P>(
        #[trigger] slot(bytes, 0, size, i),
        checked,
    ) by {
        assert(0 <= i * size && i * size + size <= k * size) by (nonlinear_arith)
            requires
                0 <= i < k,
                0 <= size,
        ;
        assert(slot(bytes, 0, size, i) =~= slot(all, at + 4, size, i));
    }
    assert(0 <= k * size) by (nonlinear_arith)
        requires
            0 <= k,
            0 <= size,
    ;
    lemma_points_reach::<P>(none, be32(head), bytes, checked, k);
    let next = at + 4 + k * size;
    let rest = bytes.skip(k * size);
    assert(rest.len() == all.len() - next);
    if next + size <= all.len() {
        assert(rest.take(size) =~= all.subrange(next, next + size));
    }
}

/// What a list is depends only on the bytes that it uses.
pub(crate) proof fn lemma_section_same<P: CurvePoint>(x: Seq<u8>, y: Seq<u8>, checked: bool)
    requires
        section::<P>(x, checked) is Ok,
        section::<P>(x, checked)->Ok_0.1 <= y.len(),
        y.take(section::<P>(x, checked)->Ok_0.1 as int) == x.take(
            section::<P>(x, checked)->Ok_0.1 as int,
        ),
    ensures
        section::<P>(y, checked) == section::<P>(x, checked),
{
    let (points, n) = section::<P>(x, checked)->Ok_0;
    lemma_section::<P>(x, checked);
    let rest = y.skip(n as int);
    assert(y.take(n as int) + rest =~= y);
    lemma_section_of_bytes::<P>(points, rest, checked);
}

/// What a key is depends only on the bytes that it uses.
pub(crate) proof fn lemma_key_same<E: Engine>(x: Seq<u8>, y: Seq<u8>)
    requires
        key::<E>(x) is Ok,
        key::<E>(x)->Ok_0.1 <= y.len(),
        y.take(key::<E>(x)->Ok_0.1 as int) == x.take(key::<E>(x)->Ok_0.1 as int),
    ensures
        key::<E>(y) == key::<E>(x),
{
    let (vk, n) = key::<E>(x)->Ok_0;
    lemma_key::<E>(x);
    let rest = y.skip(n as int);
    assert(y.take(n as int) + rest =~= y);
    lemma_key_of_bytes::<E>(vk, rest);
}

/// Where the `i`-th leading point of a key begins.
pub(crate) open spec fn lead_start<E: Engine>(i: int) -> int {
    let g1 = E::G1Affine::size() as int;
    let g2 = E::G2Affine::size() as int;
    if i == 0 {
        0
    } else if i == 1 {
        g1
    } else if i == 2 {
        2 * g1
    } else if i == 3 {
        2 * g1 + g2
    } else if i == 4 {
        2 * g1 + 2 * g2
    } else if i == 5 {
        3 * g1 + 2 * g2
    } else {
        3 * g1 + 3 * g2
    }
}

/// The bytes in the place of the `i`-th leading point of a key.
pub(crate) open spec fn lead<E: Engine>(all: Seq<u8>, i: int) -> Seq<u8> {
    all.subrange(lead_start::<E>(i), lead_start::<E>(i + 1))
}

/// Whether the bytes in the place of a leading point are accepted.
pub(crate) open spec fn lead_accepted<E: Engine>(all: Seq<u8>, i: int) -> bool {
    if i == 0 || i == 1 || i == 4 {
        E::G1Affine::admits(lead::<E>(all, i), true)
    } else {
        E::G2Affine::admits(lead::<E>(all, i), true)
    }
}

/// A leading point that is accepted is read.
pub(crate) proof fn lemma_lead<E: Engine>(all: Seq<u8>, i: int)
    requires
        0 <= i < 6,
        lead_start::<E>(i) <= all.len(),
    ensures
        lead_start::<E>(i + 1) == lead_start::<E>(i) + key_point_size::<E>(i),
        key_point::<E>(i, all.skip(lead_start::<E>(i))) == (if lead_start::<E>(i + 1)
            > all.len() {
            Err::<Seq<u8>, ReadError>(ReadError::UnexpectedEof)
        } else if !lead_accepted::<E>(all, i) {
            Err(ReadError::NotOnCurve)
        } else {
            Ok(lead::<E>(all, i))
        }),
{
    let rest = all.skip(lead_start::<E>(i));
    if lead_start::<E>(i + 1) <= all.len() {
        assert(rest.take(key_point_size::<E>(i) as int) =~= lead::<E>(all, i));
    }
}

/// The leading points of a key are read one by one.
pub(crate) proof fn lemma_leads_reach<E: Engine>(all: Seq<u8>, k: int)
    requires
        0 <= k <= 6,
        lead_start::<E>(k) <= all.len(),
        forall|i: int| 0 <= i < k ==> #[trigger] lead_accepted::<E>(all, i),
    ensures
        key_points_from::<E>(Seq::empty(), all) == advance(
            key_points_from::<E>(
                Seq::new(k as nat, |i: int| lead::<E>(all, i)),
                all.skip(lead_start::<E>(k)),
            ),
            lead_start::<E>(k) as nat,
        ),
    decreases k,
{
    let got = Seq::new(k as nat, |i: int| lead::<E>(all, i));
    if k == 0 {
        assert(got =~= Seq::empty());
        assert(all.skip(0) =~= all);
    } else {
        let before = Seq::new((k - 1) as nat, |i: int| lead::<E>(all, i));
        lemma_lead::<E>(all, k - 1);
        lemma_leads_reach::<E>(all, k - 1);
        assert(lead_accepted::<E>(all, k - 1));
        assert(got =~= before.push(lead::<E>(all, k - 1)));
        assert(all.skip(lead_start::<E>(k - 1)).skip(key_point_size::<E>(k - 1) as int)
            =~= all.skip(lead_start::<E>(k)));
    }
}

/// A key is refused for the first of its leading points that is not accepted.
pub(crate) proof fn lemma_key_lead_fault<E: Engine>(all: Seq<u8>, k: int)
    requires
        0 <= k < 6,
        lead_start::<E>(k) <= all.len(),
        forall|i: int| 0 <= i < k ==> #[trigger] lead_accepted::<E>(all, i),
    ensures
        lead_start::<E>(k + 1) > all.len() ==> key::<E>(all) == Err::<(KeyView, nat), ReadError>(
            ReadError::UnexpectedEof,
        ),
        lead_start::<E>(k + 1) <= all.len() && !lead_accepted::<E>(all, k) ==> key::<E>(all)
            == Err::<(KeyView, nat), ReadError>(ReadError::NotOnCurve),
{
    lemma_leads_reach::<E>(all, k);
    lemma_lead::<E>(all, k);
}

/// A key whose leading points are accepted is read if its list is, and has the
/// error of its list if that has one.
pub(crate) proof fn lemma_key_ic<E: Engine>(all: Seq<u8>)
    requires
        lead_start::<E>(6) <= all.len(),
        forall|i: int| 0 <= i < 6 ==> #[trigger] lead_accepted::<E>(all, i),
    ensures
        match section::<E::G1Affine>(all.skip(lead_start::<E>(6)), true) {
            Ok((ic, n)) => {
                &&& key::<E>(all) matches Ok((vk, used))
                &&& used == lead_start::<E>(6) + n
                &&& vk.ic == ic
            },
            Err(e) => key::<E>(all) == Err::<(KeyView, nat), ReadError>(e),
        },
{
    lemma_leads_reach::<E>(all, 6);
}

/// What is left behind a key and a list behind it.
proof fn lemma_skips(all: Seq<u8>, n0: int, at: int)
    requires
        0 <= n0 <= at <= all.len(),
    ensures
        all.skip(n0).skip(at - n0) == all.skip(at),
{
    assert(all.skip(n0).skip(at - n0) =~= all.skip(at));
}

/// An error in the list `h` is that of the parameters if there is none before.
pub(crate) proof fn lemma_h_reach<E: Engine>(
    all: Seq<u8>,
    checked: bool,
    at_h: int,
)
    requires
        key::<E>(all) is Ok,
        key::<E>(all)->Ok_0.1 == at_h,
        0 <= at_h <= all.len(),
    ensures
        section::<E::G1Affine>(all.skip(at_h), checked) matches Err(e) ==> parameters::<E>(
            all,
            checked,
        ) == Err::<(ParametersView, nat), ReadError>(e),
{
}

/// An error in the list `l` is that of the parameters if there is none before.
pub(crate) proof fn lemma_l_reach<E: Engine>(
    all: Seq<u8>,
    checked: bool,
    at_h: int,
    at_l: int,
)
    requires
        key::<E>(all) is Ok,
        key::<E>(all)->Ok_0.1 == at_h,
        0 <= at_h <= at_l <= all.len(),
        section::<E::G1Affine>(all.skip(at_h), checked) is Ok,
        section::<E::G1Affine>(all.skip(at_h), checked)->Ok_0.1 == at_l - at_h,
    ensures
        section::<E::G1Affine>(all.skip(at_l), checked) matches Err(e) ==> parameters::<E>(
            all,
            checked,
        ) == Err::<(ParametersView, nat), ReadError>(e),
{
    lemma_skips(all, at_h, at_l);
}

/// An error in the list `a` is that of the parameters if there is none before.
pub(crate) proof fn lemma_a_reach<E: Engine>(
    all: Seq<u8>,
    checked: bool,
    at_h: int,
    at_l: int,
    at_a: int,
)
    requires
        key::<E>(all) is Ok,
        key::<E>(all)->Ok_0.1 == at_h,
        0 <= at_h <= at_l <= at_a <= all.len(),
        section::<E::G1Affine>(all.skip(at_h), checked) is Ok,
        section::<E::G1Affine>(all.skip(at_h), checked)->Ok_0.1 == at_l - at_h,
        section::<E::G1Affine>(all.skip(at_l), checked) is Ok,
        section::<E::G1Affine>(all.skip(at_l), checked)->Ok_0.1 == at_a - at_l,
    ensures
        section::<E::G1Affine>(all.skip(at_a), checked) matches Err(e) ==> parameters::<E>(
            all,
            checked,
        ) == Err::<(ParametersView, nat), ReadError>(e),
{
    lemma_skips(all, at_h, at_l);
    lemma_skips(all, at_h, at_a);
}

/// An error in the list `b_g1` is that of the parameters if there is none before.
pub(crate) proof fn lemma_b_g1_reach<E: Engine>(
    all: Seq<u8>,
    checked: bool,
    at_h: int,
    at_l: int,
    at_a: int,
    at_b_g1: int,
)
    requires
        key::<E>(all) is Ok,
        key::<E>(all)->Ok_0.1 == at_h,
        0 <= at_h <= at_l <= at_a <= at_b_g1 <= all.len(),
        section::<E::G1Affine>(all.skip(at_h), checked) is Ok,
        section::<E::G1Affine>(all.skip(at_h), checked)->Ok_0.1 == at_l - at_h,
        section::<E::G1Affine>(all.skip(at_l), checked) is Ok,
        section::<E::G1Affine>(all.skip(at_l), checked)->Ok_0.1 == at_a - at_l,
        section::<E::G1Affine>(all.skip(at_a), checked) is Ok,
        section::<E::G1Affine>(all.skip(at_a), checked)->Ok_0.1 == at_b_g1 - at_a,
    ensures
        section::<E::G1Affine>(all.skip(at_b_g1), checked) matches Err(e) ==> parameters::<E>(
            all,
            checked,
        ) == Err::<(ParametersView, nat), ReadError>(e),
{
    lemma_skips(all, at_h, at_l);
    lemma_skips(all, at_h, at_a);
    lemma_skips(all, at_h, at_b_g1);
}

/// An error in the list `b_g2` is that of the parameters if there is none before.
pub(crate) proof fn lemma_b_g2_reach<E: Engine>(
    all: Seq<u8>,
    checked: bool,
    at_h: int,
    at_l: int,
    at_a: int,
    at_b_g1: int,
    at_b_g2: int,
)
    requires
        key::<E>(all) is Ok,
        key::<E>(all)->Ok_0.1 == at_h,
        0 <= at_h <= at_l <= at_a <= at_b_g1 <= at_b_g2 <= all.len(),
        section::<E::G1Affine>(all.skip(at_h), checked) is Ok,
        section::<E::G1Affine>(all.skip(at_h), checked)->Ok_0.1 == at_l - at_h,
        section::<E::G1Affine>(all.skip(at_l), checked) is Ok,
        section::<E::G1Affine>(all.skip(at_l), checked)->Ok_0.1 == at_a - at_l,
        section::<E::G1Affine>(all.skip(at_a), checked) is Ok,
        section::<E::G1Affine>(all.skip(at_a), checked)->Ok_0.1 == at_b_g1 - at_a,
        section::<E::G1Affine>(all.skip(at_b_g1), checked) is Ok,
        section::<E::G1Affine>(all.skip(at_b_g1), checked)->Ok_0.1 == at_b_g2 - at_b_g1,
    ensures
        section::<E::G2Affine>(all.skip(at_b_g2), checked) matches Err(e) ==> parameters::<E>(
            all,
            checked,
        ) == Err::<(ParametersView, nat), ReadError>(e),
{
    lemma_skips(all, at_h, at_l);
    lemma_skips(all, at_h, at_a);
    lemma_skips(all, at_h, at_b_g1);
    lemma_skips(all, at_h, at_b_g2);
}

/// Without an error in any list the parameters are read.
pub(crate) proof fn lemma_all_lists_reach<E: Engine>(
    all: Seq<u8>,
    checked: bool,
    at_h: int,
    at_l: int,
    at_a: int,
    at_b_g1: int,
    at_b_g2: int,
    end: int,
)
    requires
        key::<E>(all) is Ok,
        key::<E>(all)->Ok_0.1 == at_h,
        0 <= at_h <= at_l <= at_a <= at_b_g1 <= at_b_g2 <= end <= all.len(),
        section::<E::G1Affine>(all.skip(at_h), checked) is Ok,
        section::<E::G1Affine>(all.skip(at_h), checked)->Ok_0.1 == at_l - at_h,
        section::<E::G1Affine>(all.skip(at_l), checked) is Ok,
        section::<E::G1Affine>(all.skip(at_l), checked)->Ok_0.1 == at_a - at_l,
        section::<E::G1Affine>(all.skip(at_a), checked) is Ok,
        section::<E::G1Affine>(all.skip(at_a), checked)->Ok_0.1 == at_b_g1 - at_a,
        section::<E::G1Affine>(all.skip(at_b_g1), checked) is Ok,
        section::<E::G1Affine>(all.skip(at_b_g1), checked)->Ok_0.1 == at_b_g2 - at_b_g1,
        section::<E::G2Affine>(all.skip(at_b_g2), checked) is Ok,
        section::<E::G2Affine>(all.skip(at_b_g2), checked)->Ok_0.1 == end - at_b_g2,
    ensures
        parameters::<E>(all, checked) matches Ok((params, used)) && used == end,
{
    lemma_skips(all, at_h, at_l);
    lemma_skips(all, at_h, at_a);
    lemma_skips(all, at_h, at_b_g1);
    lemma_skips(all, at_h, at_b_g2);
}

/// Whether accepted finite points lie at an offset, behind their number.
pub(crate) open spec fn list_accepted<P: CurvePoint>(
    all: Seq<u8>,
    at: int,
    points: Seq<Seq<u8>>,
    checked: bool,
) -> bool {
    let size = P::size() as int;
    &&& word_at(all, at) == points.len()
    &&& forall|i: int|
        0 <= i < points.len() ==> {
            &&& #[trigger] points[i] == all.subrange(at + 4 + i * size, at + 4 + i * size + size)
            &&& P::admits(points[i], checked)
            &&& !P::at_infinity(points[i])
        }
}

/// Accepted finite points that lie behind their number are read.
pub(crate) proof fn lemma_list_reach<P: CurvePoint>(
    all: Seq<u8>,
    at: int,
    points: Seq<Seq<u8>>,
    checked: bool,
)
    requires
        0 <= at,
        at + 4 + points.len() * P::size() <= all.len(),
        list_accepted::<P>(all, at, points, checked),
    ensures
        section::<P>(all.skip(at), checked) is Ok,
        section::<P>(all.skip(at), checked)->Ok_0.1 == 4 + points.len() * P::size(),
{
    assert forall|i: int| 0 <= i < points.len() implies good_point::<P>(
        #[trigger] slot(all, at + 4, P::size() as int, i),
        checked,
    ) by {
        assert(points[i] == slot(all, at + 4, P::size() as int, i));
    }
    lemma_section_reach::<P>(all, at, checked, points.len());
}

/// Lists of accepted finite points are read, one behind the other, from behind a
/// key that is.
pub(crate) proof fn lemma_lists_reach<E: Engine>(
    all: Seq<u8>,
    checked: bool,
    at: int,
    h: Seq<Seq<u8>>,
    l: Seq<Seq<u8>>,
    a: Seq<Seq<u8>>,
    b_g1: Seq<Seq<u8>>,
    b_g2: Seq<Seq<u8>>,
)
    requires
        0 <= at,
        key::<E>(all) is Ok,
        key::<E>(all)->Ok_0.1 == at,
        ({
            let g1 = E::G1Affine::size() as int;
            let g2 = E::G2Affine::size() as int;
            let at_l = at + 4 + h.len() * g1;
            let at_a = at_l + 4 + l.len() * g1;
            let at_b_g1 = at_a + 4 + a.len() * g1;
            let at_b_g2 = at_b_g1 + 4 + b_g1.len() * g1;
            &&& at_b_g2 + 4 + b_g2.len() * g2 <= all.len()
            &&& list_accepted::<E::G1Affine>(all, at, h, checked)
            &&& list_accepted::<E::G1Affine>(all, at_l, l, checked)
            &&& list_accepted::<E::G1Affine>(all, at_a, a, checked)
            &&& list_accepted::<E::G1Affine>(all, at_b_g1, b_g1, checked)
            &&& list_accepted::<E::G2Affine>(all, at_b_g2, b_g2, checked)
        }),
    ensures
        parameters::<E>(all, checked) is Ok,
{
    let g1 = E::G1Affine::size() as int;
    let g2 = E::G2Affine::size() as int;
    let at_l = at + 4 + h.len() * g1;
    let at_a = at_l + 4 + l.len() * g1;
    let at_b_g1 = at_a + 4 + a.len() * g1;
    let at_b_g2 = at_b_g1 + 4 + b_g1.len() * g1;
    let end = at_b_g2 + 4 + b_g2.len() * g2;
    lemma_products(h.len(), g1 as nat);
    lemma_products(l.len(), g1 as nat);
    lemma_products(a.len(), g1 as nat);
    lemma_products(b_g1.len(), g1 as nat);
    lemma_products(b_g2.len(), g2 as nat);
    lemma_list_reach::<E::G1Affine>(all, at, h, checked);
    lemma_list_reach::<E::G1Affine>(all, at_l, l, checked);
    lemma_list_reach::<E::G1Affine>(all, at_a, a, checked);
    lemma_list_reach::<E::G1Affine>(all, at_b_g1, b_g1, checked);
    lemma_list_reach::<E::G2Affine>(all, at_b_g2, b_g2, checked);
    lemma_all_lists_reach::<E>(all, checked, at, at_l, at_a, at_b_g1, at_b_g2, end);
}

/// A number of sizes is not negative.
pub(crate) proof fn lemma_products(n: nat, size: nat)
    ensures
        0 <= n * size,
{
    assert(0 <= n * size) by (nonlinear_arith);
}

/// A key with accepted leading points and a list of accepted finite points is
/// read.
pub(crate) proof fn lemma_key_reach<E: Engine>(all: Seq<u8>, ic: Seq<Seq<u8>>)
    requires
        lead_start::<E>(6) + 4 + ic.len() * E::G1Affine::size() <= all.len(),
        forall|i: int| 0 <= i < 6 ==> #[trigger] lead_accepted::<E>(all, i),
        list_accepted::<E::G1Affine>(all, lead_start::<E>(6), ic, true),
    ensures
        key::<E>(all) is Ok,
        key::<E>(all)->Ok_0.1 == lead_start::<E>(6) + 4 + ic.len() * E::G1Affine::size(),
{
    lemma_products(ic.len(), E::G1Affine::size());
    lemma_list_reach::<E::G1Affine>(all, lead_start::<E>(6), ic, true);
    lemma_key_ic::<E>(all);
}

} // verus!
