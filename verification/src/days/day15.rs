//! Lens boxes: the hash of a label, the boxes that a list of steps fills
//! with lenses, and the focusing power of the result.

use crate::outside::{captures, decimals, group_views, regex_groups};
use crate::text::{parse_unsigned, same_chars, to_chars, to_text, unsigned_of};
use vstd::prelude::*;

verus! {

/// One step: the label of a lens, and its focal length when the step puts
/// the lens in, or `None` when it takes the lens out.
#[derive(Clone, Eq, PartialEq, Debug)]
pub struct Step {
    pub name: String,
    pub length: Option<usize>,
}

/// What a text says of a step, given the groups that the pattern of a step
/// captured in it.
pub open spec fn step_of(groups: Option<Seq<Option<Seq<char>>>>) -> Option<
    (Seq<char>, Option<usize>),
> {
    match groups {
        Some(g) => if g.len() == 4 && g[1] is Some && g[2] is Some && g[3] is Some {
            if g[2]->0 == seq!['='] {
                match unsigned_of(g[3]->0, 10, usize::MAX as nat) {
                    Some(length) => Some((g[1]->0, Some(length as usize))),
                    None => None,
                }
            } else {
                Some((g[1]->0, None))
            }
        } else {
            None
        },
        None => None,
    }
}

/// The codes of the characters of `text`, when all of them are below 128.
pub open spec fn codes_of(text: Seq<char>) -> Option<Seq<u8>> {
    if forall|i: int| 0 <= i < text.len() ==> (text[i] as u32) < 128 {
        Some(Seq::new(text.len(), |i: int| text[i] as u8))
    } else {
        None
    }
}

/// The hash of the first `n` codes: for each code in turn, add it, multiply
/// by seventeen, and keep the remainder of a division by 256.
pub open spec fn hash_upto(codes: Seq<u8>, n: int) -> int
    decreases n,
{
    if n <= 0 {
        0
    } else {
        ((hash_upto(codes, n - 1) + codes[n - 1]) * 17) % 256
    }
}

/// The hash of `text`, when all its characters are below 128.
pub open spec fn hash_of(text: Seq<char>) -> Option<int> {
    match codes_of(text) {
        Some(codes) => Some(hash_upto(codes, codes.len() as int)),
        None => None,
    }
}

/// A hash lies between 0 and 255.
pub proof fn lemma_hash_range(codes: Seq<u8>, n: int)
    ensures
        0 <= hash_upto(codes, n) < 256,
    decreases n,
{
    if n > 0 {
        lemma_hash_range(codes, n - 1);
    }
}

/// The hash of `step`, or `None` when a character is not below 128.
pub fn hash(step: &str) -> (out: Option<usize>)
    ensures
        out is Some <==> hash_of(step@) is Some,
        out matches Some(h) ==> hash_of(step@) == Some(h as int) && h < 256,
{
    let codes = match decimals(step) {
        Some(codes) => codes,
        None => { return None; },
    };
    let mut acc: usize = 0;
    let mut k: usize = 0;
    while k < codes.len()
        invariant
            k <= codes@.len(),
            acc == hash_upto(codes@, k as int),
            acc < 256,
        decreases codes@.len() - k,
    {
        acc = ((acc + codes[k] as usize) * 17) % 256;
        k += 1;
    }
    Some(acc)
}

/// A lens in a box: its label and its focal length.
pub type Lens = (Seq<char>, usize);

/// The place of the first of the first `n` lenses of a box with the label
/// `name`.
pub open spec fn place_of(lenses: Seq<Lens>, name: Seq<char>, n: int) -> Option<int>
    decreases n,
{
    if n <= 0 {
        None
    } else {
        match place_of(lenses, name, n - 1) {
            Some(i) => Some(i),
            None => if lenses[n - 1].0 == name {
                Some(n - 1)
            } else {
                None
            },
        }
    }
}

/// What `place_of` finds lies among the first `n` lenses, and later lenses
/// do not change it.
pub proof fn lemma_place_of(lenses: Seq<Lens>, name: Seq<char>, n: int, m: int)
    requires
        0 <= n <= m,
    ensures
        place_of(lenses, name, n) matches Some(i) ==> 0 <= i < n && place_of(lenses, name, m)
            == Some(i),
    decreases m,
{
    if n < m {
        lemma_place_of(lenses, name, n, m - 1);
    } else if n > 0 {
        lemma_place_of(lenses, name, n - 1, n - 1);
    }
}

/// What a step does to its box: a lens that is there gets the new focal
/// length or leaves the box, and the lenses behind it move up; a lens that
/// is not there goes in at the back.
pub open spec fn settle(lenses: Seq<Lens>, name: Seq<char>, length: Option<usize>) -> Seq<Lens> {
    match (place_of(lenses, name, lenses.len() as int), length) {
        (Some(p), Some(l)) => lenses.update(p, (name, l)),
        (Some(p), None) => lenses.remove(p),
        (None, Some(l)) => lenses.push((name, l)),
        (None, None) => lenses,
    }
}

/// The views of a list of steps.
pub open spec fn step_views(steps: Seq<Step>) -> Seq<(Seq<char>, Option<usize>)> {
    steps.map_values(|s: Step| (s.name@, s.length))
}

/// The 256 boxes after the first `n` steps, or `None` when the label of one
/// of them has no hash.
pub open spec fn arranged(steps: Seq<(Seq<char>, Option<usize>)>, n: int) -> Option<
    Seq<Seq<Lens>>,
>
    decreases n,
{
    if n <= 0 {
        Some(Seq::new(256, |b: int| Seq::<Lens>::empty()))
    } else {
        match (arranged(steps, n - 1), hash_of(steps[n - 1].0)) {
            (Some(boxes), Some(h)) => Some(
                boxes.update(h, settle(boxes[h], steps[n - 1].0, steps[n - 1].1)),
            ),
            _ => None,
        }
    }
}

/// Once a label has no hash, no longer list of steps has boxes.
proof fn lemma_arranged_stays_none(steps: Seq<(Seq<char>, Option<usize>)>, n: int, m: int)
    requires
        arranged(steps, n) is None,
        n <= m,
    ensures
        arranged(steps, m) is None,
    decreases m - n,
{
    if n < m {
        lemma_arranged_stays_none(steps, n, m - 1);
    }
}

/// The lenses of a box as labels and focal lengths.
pub open spec fn lens_views(lenses: Seq<(Vec<char>, usize)>) -> Seq<Lens> {
    lenses.map_values(|l: (Vec<char>, usize)| (l.0@, l.1))
}

/// The boxes as sequences of labels and focal lengths.
pub open spec fn box_views(boxes: Seq<Vec<(Vec<char>, usize)>>) -> Seq<Seq<Lens>> {
    boxes.map_values(|b: Vec<(Vec<char>, usize)>| lens_views(b@))
}

impl Step {
    /// Builds a step from the groups that the pattern of a step captured.
    pub fn from_groups(groups: &Vec<Option<Vec<char>>>) -> (out: Option<Step>)
        ensures
            out is Some <==> step_of(Some(group_views(groups@))) is Some,
            out matches Some(step) ==> step_of(Some(group_views(groups@))) == Some(
                (step.name@, step.length),
            ),
    {
        if groups.len() != 4 {
            return None;
        }
        proof {
            assert(group_views(groups@)[1] == match groups@[1] {
                Some(c) => Some(c@),
                None => None,
            });
            assert(group_views(groups@)[2] == match groups@[2] {
                Some(c) => Some(c@),
                None => None,
            });
            assert(group_views(groups@)[3] == match groups@[3] {
                Some(c) => Some(c@),
                None => None,
            });
        }
        match (&groups[1], &groups[2], &groups[3]) {
            (Some(name), Some(sign), Some(digits)) => {
                let puts = sign.len() == 1 && sign[0] == '=';
                proof {
                    if puts {
                        assert(sign@ =~= seq!['=']);
                    } else if sign@.len() == 1 {
                        assert(sign@[0] != seq!['='][0]);
                    }
                }
                if puts {
                    match parse_unsigned(digits, usize::MAX as u64) {
                        Some(v) => Some(Step { name: to_text(name), length: Some(v as usize) }),
                        None => None,
                    }
                } else {
                    Some(Step { name: to_text(name), length: None })
                }
            },
            _ => None,
        }
    }

    /// Reads a step such as `rn=1` or `cm-`.
    pub fn parse(text: &str) -> (out: Option<Step>)
        ensures
            out is Some <==> step_of(regex_groups("(\\w+)([=\\-])(\\d*)"@, text@)) is Some,
            out matches Some(step) ==> step_of(regex_groups("(\\w+)([=\\-])(\\d*)"@, text@))
                == Some((step.name@, step.length)),
    {
        match captures("(\\w+)([=\\-])(\\d*)", text) {
            Some(groups) => Step::from_groups(&groups),
            None => None,
        }
    }
}

/// The place of the first lens of a box with the label `name`.
fn find_lens(lenses: &Vec<(Vec<char>, usize)>, name: &Vec<char>) -> (out: Option<usize>)
    ensures
        out is Some <==> place_of(lens_views(lenses@), name@, lenses@.len() as int) is Some,
        out matches Some(p) ==> p < lenses@.len() && place_of(
            lens_views(lenses@),
            name@,
            lenses@.len() as int,
        ) == Some(p as int),
{
    let ghost list = lens_views(lenses@);
    let mut k: usize = 0;
    while k < lenses.len()
        invariant
            k <= lenses@.len(),
            list == lens_views(lenses@),
            place_of(list, name@, k as int) is None,
        decreases lenses@.len() - k,
    {
        proof {
            assert(list[k as int] == (lenses@[k as int].0@, lenses@[k as int].1));
        }
        if same_chars(&lenses[k].0, name) {
            proof {
                assert(place_of(list, name@, k + 1) == Some(k as int));
                lemma_place_of(list, name@, k + 1, lenses@.len() as int);
            }
            return Some(k);
        }
        k += 1;
    }
    None
}

/// A copy of `chars`.
fn copy_chars(chars: &Vec<char>) -> (out: Vec<char>)
    ensures
        out@ == chars@,
{
    let out = crate::text::slice_of(chars, 0, chars.len());
    assert(chars@.subrange(0, chars@.len() as int) =~= chars@);
    out
}

/// The box after a step with the label `name`.
fn settle_box(lenses: &Vec<(Vec<char>, usize)>, name: &Vec<char>, length: Option<usize>) -> (out:
    Vec<(Vec<char>, usize)>)
    ensures
        lens_views(out@) == settle(lens_views(lenses@), name@, length),
{
    let place = find_lens(lenses, name);
    let ghost list = lens_views(lenses@);
    let mut out: Vec<(Vec<char>, usize)> = Vec::new();
    let mut k: usize = 0;
    while k < lenses.len()
        invariant
            k <= lenses@.len(),
            list == lens_views(lenses@),
            place is Some ==> place->0 < lenses@.len(),
            lens_views(out@) == match (place, length) {
                (Some(p), Some(l)) => if k <= p {
                    list.take(k as int)
                } else {
                    list.take(k as int).update(p as int, (name@, l))
                },
                (Some(p), None) => if k <= p {
                    list.take(k as int)
                } else {
                    list.take(k as int).remove(p as int)
                },
                (None, _) => list.take(k as int),
            },
        decreases lenses@.len() - k,
    {
        let ghost before = lens_views(out@);
        proof {
            assert(list[k as int] == (lenses@[k as int].0@, lenses@[k as int].1));
            assert(list.take(k + 1) =~= list.take(k as int).push(list[k as int]));
        }
        let here = match place {
            Some(p) => p == k,
            None => false,
        };
        if here {
            match length {
                Some(l) => {
                    out.push((copy_chars(name), l));
                    proof {
                        assert(lens_views(out@) =~= before.push((name@, l)));
                        assert(lens_views(out@) =~= list.take(k + 1).update(k as int, (name@, l)));
                    }
                },
                None => {
                    proof {
                        assert(before =~= list.take(k + 1).remove(k as int));
                    }
                },
            }
        } else {
            out.push((copy_chars(&lenses[k].0), lenses[k].1));
            proof {
                assert(lens_views(out@) =~= before.push(list[k as int]));
                match (place, length) {
                    (Some(p), Some(l)) => {
                        if k > p {
                            assert(lens_views(out@) =~= list.take(k + 1).update(
                                p as int,
                                (name@, l),
                            ));
                        }
                    },
                    (Some(p), None) => {
                        if k > p {
                            assert(lens_views(out@) =~= list.take(k + 1).remove(p as int));
                        }
                    },
                    _ => {},
                }
            }
        }
        k += 1;
    }
    proof {
        assert(list.take(k as int) =~= list);
    }
    match (place, length) {
        (None, Some(l)) => {
            let ghost before = lens_views(out@);
            out.push((copy_chars(name), l));
            proof {
                assert(lens_views(out@) =~= before.push((name@, l)));
            }
        },
        _ => {},
    }
    out
}

/// The 256 boxes after all `steps`, or `None` when the label of a step has
/// no hash.
pub fn arrange(steps: &Vec<Step>) -> (out: Option<Vec<Vec<(Vec<char>, usize)>>>)
    ensures
        out is Some <==> arranged(step_views(steps@), steps@.len() as int) is Some,
        out matches Some(boxes) ==> arranged(step_views(steps@), steps@.len() as int) == Some(
            box_views(boxes@),
        ),
{
    let ghost list = step_views(steps@);
    let mut boxes: Vec<Vec<(Vec<char>, usize)>> = Vec::new();
    let mut b: usize = 0;
    while b < 256
        invariant
            b <= 256,
            boxes@.len() == b,
            forall|i: int| 0 <= i < b ==> (#[trigger] boxes@[i])@.len() == 0,
        decreases 256 - b,
    {
        boxes.push(Vec::new());
        b += 1;
    }
    proof {
        assert forall|i: int| 0 <= i < 256 implies #[trigger] box_views(boxes@)[i]
            == Seq::<Lens>::empty() by {
            assert(lens_views(boxes@[i]@) =~= Seq::<Lens>::empty());
        }
        assert(box_views(boxes@) =~= arranged(list, 0)->0);
    }
    let mut k: usize = 0;
    while k < steps.len()
        invariant
            k <= steps@.len(),
            list == step_views(steps@),
            boxes@.len() == 256,
            arranged(list, k as int) == Some(box_views(boxes@)),
        decreases steps@.len() - k,
    {
        let step = &steps[k];
        proof {
            assert(list[k as int] == (step.name@, step.length));
        }
        let h = match hash(step.name.as_str()) {
            Some(h) => h,
            None => {
                proof {
                    lemma_arranged_stays_none(list, k + 1, steps@.len() as int);
                }
                return None;
            },
        };
        let name = to_chars(step.name.as_str());
        let ghost before = box_views(boxes@);
        let settled = settle_box(&boxes[h], &name, step.length);
        proof {
            assert(before[h as int] == lens_views(boxes@[h as int]@));
        }
        boxes.set(h, settled);
        proof {
            assert(box_views(boxes@) =~= before.update(
                h as int,
                settle(before[h as int], step.name@, step.length),
            ));
        }
        k += 1;
    }
    Some(boxes)
}

/// The focusing power of the first `n` lenses of box `b`: for each lens the
/// number of the box, counted from one, times the place of the lens in the
/// box, counted from one, times its focal length.
pub open spec fn box_power(lenses: Seq<Lens>, b: int, n: int) -> int
    decreases n,
{
    if n <= 0 {
        0
    } else {
        box_power(lenses, b, n - 1) + (b + 1) * n * lenses[n - 1].1
    }
}

/// The focusing power of the first `n` boxes.
pub open spec fn total_power(boxes: Seq<Seq<Lens>>, n: int) -> int
    decreases n,
{
    if n <= 0 {
        0
    } else {
        total_power(boxes, n - 1) + box_power(boxes[n - 1], n - 1, boxes[n - 1].len() as int)
    }
}

/// More lenses do not have less power.
proof fn lemma_box_power_grows(lenses: Seq<Lens>, b: int, n: int, m: int)
    requires
        0 <= b,
        0 <= n <= m <= lenses.len(),
    ensures
        box_power(lenses, b, n) <= box_power(lenses, b, m),
    decreases m - n,
{
    if n < m {
        lemma_box_power_grows(lenses, b, n, m - 1);
        let size = lenses[m - 1].1 as int;
        assert((b + 1) * m * size >= 0) by (nonlinear_arith)
            requires
                b >= 0,
                m >= 0,
                size >= 0,
        ;
    }
}

/// More boxes do not have less power.
proof fn lemma_total_power_grows(boxes: Seq<Seq<Lens>>, n: int, m: int)
    requires
        0 <= n <= m <= boxes.len(),
    ensures
        total_power(boxes, n) <= total_power(boxes, m),
    decreases m - n,
{
    if n < m {
        lemma_total_power_grows(boxes, n, m - 1);
        lemma_box_power_grows(boxes[m - 1], m - 1, 0, boxes[m - 1].len() as int);
    }
}

/// The focusing power of all lenses in all boxes, or `None` when it leaves
/// `usize`.
pub fn focusing_power(boxes: &Vec<Vec<(Vec<char>, usize)>>) -> (out: Option<usize>)
    ensures
        out matches Some(p) ==> p == total_power(box_views(boxes@), boxes@.len() as int),
        out is None ==> total_power(box_views(boxes@), boxes@.len() as int) > usize::MAX,
{
    let ghost list = box_views(boxes@);
    let mut total: usize = 0;
    let mut b: usize = 0;
    while b < boxes.len()
        invariant
            b <= boxes@.len(),
            list == box_views(boxes@),
            total == total_power(list, b as int),
        decreases boxes@.len() - b,
    {
        let lenses = &boxes[b];
        let ghost these = lens_views(lenses@);
        proof {
            assert(list[b as int] == these);
        }
        let mut power: usize = 0;
        let mut s: usize = 0;
        while s < lenses.len()
            invariant
                s <= lenses@.len(),
                b < boxes@.len(),
                these == lens_views(lenses@),
                list == box_views(boxes@),
                list[b as int] == these,
                total == total_power(list, b as int),
                power == box_power(these, b as int, s as int),
            decreases lenses@.len() - s,
        {
            proof {
                assert(these[s as int] == (lenses@[s as int].0@, lenses@[s as int].1));
            }
            assert(b < boxes.len());
            assert(s < lenses.len());
            let size = lenses[s].1;
            let gain: Option<usize> = if size == 0 {
                Some(0)
            } else {
                match (b + 1).checked_mul(s + 1) {
                    Some(v) => v.checked_mul(size),
                    None => None,
                }
            };
            proof {
                let product = (b + 1) * (s + 1) * size;
                if size == 0 {
                    assert(product == 0) by (nonlinear_arith)
                        requires
                            product == (b + 1) * (s + 1) * size,
                            size == 0,
                    ;
                } else {
                    assert(product >= (b + 1) * (s + 1)) by (nonlinear_arith)
                        requires
                            product == (b + 1) * (s + 1) * size,
                            size >= 1,
                            b >= 0,
                            s >= 0,
                    ;
                }
                assert(gain matches Some(g) ==> g == product);
                assert(gain is None ==> product > usize::MAX);
            }
            let next = match gain {
                Some(g) => power.checked_add(g),
                None => None,
            };
            match next {
                Some(p) => {
                    power = p;
                },
                None => {
                    proof {
                        lemma_box_power_grows(these, b as int, 0, s as int);
                        lemma_box_power_grows(these, b as int, s + 1, these.len() as int);
                        lemma_total_power_grows(list, 0, b as int);
                        lemma_total_power_grows(list, b + 1, boxes@.len() as int);
                        assert(box_power(these, b as int, s + 1) > usize::MAX);
                    }
                    return None;
                },
            }
            s += 1;
        }
        match total.checked_add(power) {
            Some(t) => {
                total = t;
            },
            None => {
                proof {
                    lemma_total_power_grows(list, b + 1, boxes@.len() as int);
                }
                return None;
            },
        }
        b += 1;
    }
    Some(total)
}

/// The sum of the hashes of the first `n` texts, or `None` when one of them
/// has no hash.
pub open spec fn hashes_sum(texts: Seq<Seq<char>>, n: int) -> Option<int>
    decreases n,
{
    if n <= 0 {
        Some(0)
    } else {
        match (hashes_sum(texts, n - 1), hash_of(texts[n - 1])) {
            (Some(before), Some(h)) => Some(before + h),
            _ => None,
        }
    }
}

/// Once a text has no hash, no longer list of texts has a sum.
proof fn lemma_hashes_stay_none(texts: Seq<Seq<char>>, n: int, m: int)
    requires
        hashes_sum(texts, n) is None,
        n <= m,
    ensures
        hashes_sum(texts, m) is None,
    decreases m - n,
{
    if n < m {
        lemma_hashes_stay_none(texts, n, m - 1);
    }
}

/// The sum of the hashes of all the steps, each taken as it is written, or
/// `None` when a step has a character that is not below 128 or the sum
/// leaves `usize`.
pub fn sum_of_hashes(steps: &Vec<String>) -> (out: Option<usize>)
    ensures
        out is Some <==> hashes_sum(steps@.map_values(|s: String| s@), steps@.len() as int)
            is Some && hashes_sum(steps@.map_values(|s: String| s@), steps@.len() as int)->0
            <= usize::MAX,
        out matches Some(total) ==> hashes_sum(
            steps@.map_values(|s: String| s@),
            steps@.len() as int,
        ) == Some(total as int),
{
    let ghost texts = steps@.map_values(|s: String| s@);
    let mut total: u128 = 0;
    let mut k: usize = 0;
    while k < steps.len()
        invariant
            k <= steps@.len(),
            texts == steps@.map_values(|s: String| s@),
            hashes_sum(texts, k as int) == Some(total as int),
            total <= 255 * k,
        decreases steps@.len() - k,
    {
        proof {
            assert(texts[k as int] == steps@[k as int]@);
        }
        match hash(steps[k].as_str()) {
            Some(h) => {
                total = total + h as u128;
            },
            None => {
                proof {
                    lemma_hashes_stay_none(texts, k + 1, steps@.len() as int);
                }
                return None;
            },
        }
        k += 1;
    }
    if total > usize::MAX as u128 {
        None
    } else {
        Some(total as usize)
    }
}

} // verus!
