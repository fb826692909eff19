//! The model editor: how it names the tensors and classes of a detection
//! model, which output it selects, and how model classes map to dataset classes.
use vstd::prelude::*;

use crate::review_context::{decimal, decimal_text, joined};

verus! {

/// The text of one dimension of a tensor shape: its size, or `?` when dynamic.
pub open spec fn dimension_text(d: Option<u64>) -> Seq<char> {
    match d {
        Some(n) => decimal(n as nat),
        None => "?"@,
    }
}

/// The texts of the dimensions of `shape`.
pub open spec fn dimension_texts(shape: Seq<Option<u64>>) -> Seq<Seq<char>> {
    shape.map_values(|d: Option<u64>| dimension_text(d))
}

/// Names a model tensor: its name, its data type and its shape, as
/// `name · type · [1, 6, ?]`.
pub fn model_tensor_label(name: &str, data_type: &str, shape: &Vec<Option<u64>>) -> (r: String)
    ensures
        r@ == name@ + " · "@ + data_type@ + " · ["@ + joined(dimension_texts(shape@), ", "@) + "]"@,
{
    let mut r = String::from_str(name);
    r.append(" · ");
    r.append(data_type);
    r.append(" · [");
    let ghost start = r@;
    let ghost texts = dimension_texts(shape@);
    let mut i: usize = 0;
    while i < shape.len()
        invariant
            i <= shape@.len(),
            texts == dimension_texts(shape@),
            r@ == start + joined(texts.take(i as int), ", "@),
        decreases shape@.len() - i,
    {
        proof {
            assert(texts.take(i as int + 1).drop_last() =~= texts.take(i as int));
            if i == 0 {
                assert(texts.take(1) =~= seq![texts[0]]);
            }
        }
        if i > 0 {
            r.append(", ");
        }
        match shape[i] {
            Some(n) => {
                let t = decimal_text(n);
                r.append(t.as_str());
            },
            None => r.append("?"),
        }
        i += 1;
    }
    proof {
        assert(texts.take(shape@.len() as int) =~= texts);
    }
    r.append("]");
    r
}

/// Names class `id` of a model with class names `class_names`: `id · name`, or
/// just the id when the model does not name it.
pub fn model_class_label(class_names: &Vec<String>, id: u32) -> (r: String)
    ensures
        r@ == if (id as int) < class_names@.len() {
            decimal(id as nat) + " · "@ + class_names@[id as int]@
        } else {
            decimal(id as nat)
        },
{
    let mut r = decimal_text(id as u64);
    if (id as usize) < class_names.len() {
        r.append(" · ");
        r.append(class_names[id as usize].as_str());
    }
    r
}

/// `i` is the first of `names` equal to `name`.
pub open spec fn first_named(names: Seq<String>, name: Seq<char>, i: int) -> bool {
    &&& 0 <= i < names.len()
    &&& names[i]@ == name
    &&& forall|j: int| 0 <= j < i ==> (#[trigger] names[j])@ != name
}

/// The output the editor selects among the `compatible` outputs (by name): the
/// saved one while it is compatible, else the only compatible one, else none.
pub open spec fn selected_output(compatible: Seq<String>, saved: Option<Seq<char>>) -> Option<int> {
    if saved is Some && exists|i: int| #[trigger] first_named(compatible, saved->0, i) {
        Some(choose|i: int| #[trigger] first_named(compatible, saved->0, i))
    } else if compatible.len() == 1 {
        Some(0)
    } else {
        None
    }
}

/// The text of a saved output name.
pub open spec fn saved_name(saved: Option<String>) -> Option<Seq<char>> {
    match saved {
        Some(s) => Some(s@),
        None => None,
    }
}

/// The position among `compatible` of the output the editor selects.
pub fn select_output(compatible: &Vec<String>, saved: &Option<String>) -> (r: Option<usize>)
    ensures
        r matches Some(i) ==> i < compatible@.len(),
        r == match selected_output(compatible@, saved_name(*saved)) {
            Some(i) => Some(i as usize),
            None => None::<usize>,
        },
{
    if let Some(name) = saved {
        let mut i: usize = 0;
        while i < compatible.len()
            invariant
                i <= compatible@.len(),
                saved_name(*saved) == Some(name@),
                forall|j: int| 0 <= j < i ==> (#[trigger] compatible@[j])@ != name@,
            decreases compatible@.len() - i,
        {
            if compatible[i] == *name {
                proof {
                    assert(first_named(compatible@, name@, i as int));
                    let c = choose|c: int| #[trigger] first_named(compatible@, name@, c);
                    if c < i {
                        assert(compatible@[c]@ != name@);
                    } else if i < c {
                        assert(compatible@[i as int]@ != name@);
                    }
                    assert(saved_name(*saved) == Some(name@));
                    assert(selected_output(compatible@, Some(name@)) == Some(i as int));
                }
                return Some(i);
            }
            i += 1;
        }
        proof {
            if exists|c: int| #[trigger] first_named(compatible@, name@, c) {
                let c = choose|c: int| #[trigger] first_named(compatible@, name@, c);
                assert(compatible@[c]@ != name@);
            }
        }
    }
    if compatible.len() == 1 {
        Some(0)
    } else {
        None
    }
}

/// A model class mapped to a dataset class.
#[derive(Clone, Copy, Debug, PartialEq, Eq, Structural)]
pub struct ClassMapping {
    pub model_class_id: u32,
    pub class_id: u64,
}

/// The dataset class that model class `model_class` is mapped to: the first
/// mapping of it.
pub open spec fn owner_of(m: Seq<ClassMapping>, model_class: u32) -> Option<u64>
    decreases m.len(),
{
    if m.len() == 0 {
        None
    } else if m[0].model_class_id == model_class {
        Some(m[0].class_id)
    } else {
        owner_of(m.drop_first(), model_class)
    }
}

/// The dataset class that model class `model_class` is mapped to.
pub fn mapping_owner(m: &Vec<ClassMapping>, model_class: u32) -> (r: Option<u64>)
    ensures
        r == owner_of(m@, model_class),
{
    let mut i: usize = 0;
    proof {
        assert(m@.skip(0) =~= m@);
    }
    while i < m.len()
        invariant
            i <= m@.len(),
            owner_of(m@, model_class) == owner_of(m@.skip(i as int), model_class),
        decreases m@.len() - i,
    {
        proof {
            assert(m@.skip(i as int)[0] == m@[i as int]);
            assert(m@.skip(i as int).drop_first() =~= m@.skip(i as int + 1));
        }
        if m[i].model_class_id == model_class {
            return Some(m[i].class_id);
        }
        i += 1;
    }
    None
}

/// The checkbox of model class `model_class` under dataset class `class` may
/// be used: the model class is free or already mapped to `class`.
pub fn mapping_enabled(m: &Vec<ClassMapping>, model_class: u32, class: u64) -> (r: bool)
    ensures
        r == (owner_of(m@, model_class) is None || owner_of(m@, model_class) == Some(class)),
{
    match mapping_owner(m, model_class) {
        None => true,
        Some(c) => c == class,
    }
}

/// A mapping still fits: its model class exists among `class_count` and its
/// dataset class is one of `labels`.
pub open spec fn mapping_fits(mp: ClassMapping, class_count: u32, labels: Seq<u64>) -> bool {
    mp.model_class_id < class_count && labels.contains(mp.class_id)
}

/// The mappings of `m` that still fit, in order.
pub open spec fn fitting(m: Seq<ClassMapping>, class_count: u32, labels: Seq<u64>) -> Seq<ClassMapping>
    decreases m.len(),
{
    if m.len() == 0 {
        m
    } else {
        let rest = fitting(m.drop_last(), class_count, labels);
        if mapping_fits(m.last(), class_count, labels) {
            rest.push(m.last())
        } else {
            rest
        }
    }
}

fn contains_class(labels: &Vec<u64>, c: u64) -> (r: bool)
    ensures
        r == labels@.contains(c),
{
    let mut i: usize = 0;
    while i < labels.len()
        invariant
            i <= labels@.len(),
            forall|j: int| 0 <= j < i ==> labels@[j] != c,
        decreases labels@.len() - i,
    {
        if labels[i] == c {
            return true;
        }
        i += 1;
    }
    false
}

/// Whether some saved mapping no longer fits the model or the dataset classes.
pub fn has_invalid_mapping(m: &Vec<ClassMapping>, class_count: u32, labels: &Vec<u64>) -> (r: bool)
    ensures
        r == exists|i: int| 0 <= i < m@.len() && !mapping_fits(#[trigger] m@[i], class_count, labels@),
{
    let mut i: usize = 0;
    while i < m.len()
        invariant
            i <= m@.len(),
            forall|j: int| 0 <= j < i ==> mapping_fits(#[trigger] m@[j], class_count, labels@),
        decreases m@.len() - i,
    {
        if !(m[i].model_class_id < class_count && contains_class(labels, m[i].class_id)) {
            return true;
        }
        i += 1;
    }
    false
}

/// Removes the mappings that no longer fit.
pub fn remove_invalid_mappings(m: &mut Vec<ClassMapping>, class_count: u32, labels: &Vec<u64>)
    ensures
        final(m)@ == fitting(old(m)@, class_count, labels@),
{
    let ghost all = m@;
    let mut kept: Vec<ClassMapping> = Vec::new();
    let mut i: usize = 0;
    while i < m.len()
        invariant
            m@ == all,
            i <= all.len(),
            kept@ == fitting(all.take(i as int), class_count, labels@),
        decreases all.len() - i,
    {
        proof {
            assert(all.take(i as int + 1).drop_last() =~= all.take(i as int));
            assert(all.take(i as int + 1).last() == all[i as int]);
        }
        if m[i].model_class_id < class_count && contains_class(labels, m[i].class_id) {
            kept.push(m[i]);
        }
        i += 1;
    }
    proof {
        assert(all.take(all.len() as int) =~= all);
    }
    *m = kept;
}

/// The default names of `count` pose keypoints: those of the first task
/// skeleton (of `skeletons`) with that many keypoints, else `keypoint_1` to
/// `keypoint_<count>`.
pub open spec fn default_keypoints(skeletons: Seq<Seq<Seq<char>>>, count: u32) -> Seq<Seq<char>> {
    if exists|i: int| 0 <= i < skeletons.len() && #[trigger] skeletons[i].len() == count {
        skeletons[choose|i: int|
            0 <= i < skeletons.len() && #[trigger] skeletons[i].len() == count && forall|j: int|
                0 <= j < i ==> #[trigger] skeletons[j].len() != count]
    } else {
        Seq::new(count as nat, |k: int| "keypoint_"@ + decimal((k + 1) as nat))
    }
}

/// The texts of `v`.
pub open spec fn texts(v: Seq<String>) -> Seq<Seq<char>> {
    v.map_values(|s: String| s@)
}

/// The default keypoint names for a model with `count` keypoints, given the
/// keypoint names of the dataset's task skeletons.
pub fn default_keypoint_names(skeletons: &Vec<Vec<String>>, count: u32) -> (r: Vec<String>)
    ensures
        texts(r@) == default_keypoints(skeletons@.map_values(|s: Vec<String>| texts(s@)), count),
{
    let ghost sk = skeletons@.map_values(|s: Vec<String>| texts(s@));
    let mut i: usize = 0;
    while i < skeletons.len()
        invariant
            i <= skeletons@.len(),
            sk == skeletons@.map_values(|s: Vec<String>| texts(s@)),
            forall|j: int| 0 <= j < i ==> #[trigger] sk[j].len() != count,
        decreases skeletons@.len() - i,
    {
        if skeletons[i].len() == count as usize {
            let mut r: Vec<String> = Vec::new();
            let mut k: usize = 0;
            while k < skeletons[i].len()
                invariant
                    i < skeletons@.len(),
                    k <= skeletons@[i as int]@.len(),
                    texts(r@) == texts(skeletons@[i as int]@).take(k as int),
                decreases skeletons@[i as int]@.len() - k,
            {
                let ghost before = r@;
                let name = skeletons[i][k].clone();
                r.push(name);
                proof {
                    assert(name@ == skeletons@[i as int]@[k as int]@);
                    assert(texts(r@) =~= texts(before).push(name@));
                    assert(texts(skeletons@[i as int]@)[k as int] == skeletons@[i as int]@[k as int]@);
                    assert(texts(r@) =~= texts(skeletons@[i as int]@).take(k as int + 1));
                }
                k += 1;
            }
            proof {
                assert(sk[i as int] == texts(skeletons@[i as int]@));
                assert(texts(skeletons@[i as int]@).take(k as int) =~= texts(skeletons@[i as int]@));
                let c = choose|c: int|
                    0 <= c < sk.len() && #[trigger] sk[c].len() == count && forall|j: int|
                        0 <= j < c ==> #[trigger] sk[j].len() != count;
                if c < i {
                    assert(sk[c].len() != count);
                } else if i < c {
                    assert(sk[i as int].len() != count);
                }
            }
            return r;
        }
        proof {
            assert(sk[i as int].len() == skeletons@[i as int]@.len());
        }
        i += 1;
    }
    let mut r: Vec<String> = Vec::new();
    let mut k: u32 = 0;
    while k < count
        invariant
            k <= count,
            forall|j: int| 0 <= j < skeletons@.len() ==> #[trigger] sk[j].len() != count,
            texts(r@) == Seq::new(k as nat, |q: int| "keypoint_"@ + decimal((q + 1) as nat)),
        decreases count - k,
    {
        let mut name = String::from_str("keypoint_");
        let n = decimal_text(k as u64 + 1);
        name.append(n.as_str());
        let ghost before = r@;
        r.push(name);
        proof {
            assert(texts(r@) =~= texts(before).push(name@));
            assert(texts(r@) =~= Seq::new((k + 1) as nat, |q: int| "keypoint_"@ + decimal((q + 1) as nat)));
        }
        k += 1;
    }
    r
}

/// The mappings of `m` of model class `k`, in order.
pub open spec fn of_model(m: Seq<ClassMapping>, k: u32) -> Seq<ClassMapping>
    decreases m.len(),
{
    if m.len() == 0 {
        m
    } else {
        let rest = of_model(m.drop_last(), k);
        if m.last().model_class_id == k {
            rest.push(m.last())
        } else {
            rest
        }
    }
}

/// The mappings of `m` of other model classes than `k`, in order.
pub open spec fn not_of_model(m: Seq<ClassMapping>, k: u32) -> Seq<ClassMapping>
    decreases m.len(),
{
    if m.len() == 0 {
        m
    } else {
        let rest = not_of_model(m.drop_last(), k);
        if m.last().model_class_id != k {
            rest.push(m.last())
        } else {
            rest
        }
    }
}

/// The mappings are in order of model class.
pub open spec fn by_model_class(m: Seq<ClassMapping>) -> bool {
    forall|i: int, j: int| 0 <= i < j < m.len() ==> m[i].model_class_id <= m[j].model_class_id
}

/// The mappings after ticking (`checked`) or clearing the checkbox of model
/// class `model_class` under dataset class `class`, before they are put in
/// order: the model class's mappings are dropped, and one to `class` is added
/// when ticked.
pub open spec fn toggled(m: Seq<ClassMapping>, model_class: u32, class: u64, checked: bool) -> Seq<ClassMapping> {
    let rest = not_of_model(m, model_class);
    if checked {
        rest.push(ClassMapping { model_class_id: model_class, class_id: class })
    } else {
        rest
    }
}

proof fn lemma_of_model_concat(a: Seq<ClassMapping>, b: Seq<ClassMapping>, k: u32)
    ensures
        of_model(a + b, k) == of_model(a, k) + of_model(b, k),
    decreases b.len(),
{
    if b.len() == 0 {
        assert(a + b =~= a);
        assert(of_model(a, k) + of_model(b, k) =~= of_model(a, k));
    } else {
        lemma_of_model_concat(a, b.drop_last(), k);
        assert((a + b).drop_last() =~= a + b.drop_last());
        assert((a + b).last() == b.last());
        if b.last().model_class_id == k {
            assert(of_model(a, k) + of_model(b, k) =~= (of_model(a, k) + of_model(b.drop_last(), k)).push(b.last()));
        } else {
            assert(of_model(a, k) + of_model(b, k) =~= of_model(a, k) + of_model(b.drop_last(), k));
        }
    }
}

proof fn lemma_of_model_none(b: Seq<ClassMapping>, k: u32)
    requires
        forall|i: int| 0 <= i < b.len() ==> #[trigger] b[i].model_class_id != k,
    ensures
        of_model(b, k) == Seq::<ClassMapping>::empty(),
    decreases b.len(),
{
    if b.len() > 0 {
        lemma_of_model_none(b.drop_last(), k);
        assert(b[b.len() - 1].model_class_id != k);
    }
}

/// Ticking the checkbox of a model class under a dataset class maps that model
/// class to that dataset class alone; clearing it leaves the model class
/// unmapped; the mappings of every other model class stay as they were.
pub proof fn toggling_maps_one_model_class(m: Seq<ClassMapping>, model_class: u32, class: u64, k: u32)
    ensures
        of_model(toggled(m, model_class, class, true), model_class) == seq![
            ClassMapping { model_class_id: model_class, class_id: class },
        ],
        of_model(toggled(m, model_class, class, false), model_class).len() == 0,
        k != model_class ==> of_model(toggled(m, model_class, class, true), k) == of_model(m, k),
        k != model_class ==> of_model(toggled(m, model_class, class, false), k) == of_model(m, k),
{
    lemma_not_of_model_split(m, model_class, k);
    let rest = not_of_model(m, model_class);
    let added = ClassMapping { model_class_id: model_class, class_id: class };
    let t = rest.push(added);
    assert(t.drop_last() =~= rest);
    assert(t.last() == added);
    assert(of_model(rest, model_class).push(added) =~= seq![added]);
}

/// Dropping the mappings of model class `mc` drops all of them and keeps those
/// of every other model class.
proof fn lemma_not_of_model_split(m: Seq<ClassMapping>, mc: u32, k: u32)
    ensures
        of_model(not_of_model(m, mc), mc).len() == 0,
        k != mc ==> of_model(not_of_model(m, mc), k) == of_model(m, k),
    decreases m.len(),
{
    if m.len() > 0 {
        lemma_not_of_model_split(m.drop_last(), mc, k);
        let rest = not_of_model(m.drop_last(), mc);
        if m.last().model_class_id != mc {
            let t = rest.push(m.last());
            assert(t.drop_last() =~= rest);
            assert(t.last() == m.last());
        }
    }
}

/// Removing the invalid mappings keeps exactly the saved mappings whose model
/// class exists and whose dataset class is one of the labels.
pub proof fn removal_keeps_exactly_the_fitting(m: Seq<ClassMapping>, class_count: u32, labels: Seq<u64>, x: ClassMapping)
    ensures
        fitting(m, class_count, labels).contains(x) <==> m.contains(x) && x.model_class_id < class_count
            && labels.contains(x.class_id),
    decreases m.len(),
{
    if m.len() > 0 {
        let init = m.drop_last();
        removal_keeps_exactly_the_fitting(init, class_count, labels, x);
        let rest = fitting(init, class_count, labels);
        let out = fitting(m, class_count, labels);
        let last = m.last();
        if mapping_fits(last, class_count, labels) {
            assert(out == rest.push(last));
        } else {
            assert(out == rest);
        }
        if rest.contains(x) {
            let k = choose|k: int| 0 <= k < rest.len() && rest[k] == x;
            assert(out[k] == x);
        }
        if init.contains(x) {
            let j = choose|j: int| 0 <= j < init.len() && init[j] == x;
            assert(m[j] == x);
        }
        if m.contains(x) && x.model_class_id < class_count && labels.contains(x.class_id) {
            let i = choose|i: int| 0 <= i < m.len() && m[i] == x;
            if i < m.len() - 1 {
                assert(init[i] == x);
            } else {
                assert(out[rest.len() as int] == x);
            }
        }
        if out.contains(x) {
            let i = choose|i: int| 0 <= i < out.len() && out[i] == x;
            if i < rest.len() {
                assert(rest[i] == x);
            } else {
                assert(x == last);
                assert(m[m.len() - 1] == x);
            }
        }
    }
}

/// Ticks (`checked`) or clears the checkbox of model class `model_class` under
/// dataset class `class`, then puts the mappings in order of model class,
/// keeping the order of the mappings of each model class.
pub fn toggle_class_mapping(m: &mut Vec<ClassMapping>, model_class: u32, class: u64, checked: bool)
    ensures
        by_model_class(final(m)@),
        forall|k: u32| #[trigger] of_model(final(m)@, k) == of_model(toggled(old(m)@, model_class, class, checked), k),
        final(m)@.len() == toggled(old(m)@, model_class, class, checked).len(),
{
    let ghost all = m@;
    let mut pre: Vec<ClassMapping> = Vec::new();
    let mut i: usize = 0;
    while i < m.len()
        invariant
            m@ == all,
            i <= all.len(),
            pre@ == not_of_model(all.take(i as int), model_class),
        decreases all.len() - i,
    {
        proof {
            assert(all.take(i as int + 1).drop_last() =~= all.take(i as int));
            assert(all.take(i as int + 1).last() == all[i as int]);
        }
        if m[i].model_class_id != model_class {
            pre.push(m[i]);
        }
        i += 1;
    }
    proof {
        assert(all.take(all.len() as int) =~= all);
    }
    if checked {
        pre.push(ClassMapping { model_class_id: model_class, class_id: class });
    }
    let ghost input = pre@;
    assert(input == toggled(all, model_class, class, checked));
    let mut out: Vec<ClassMapping> = Vec::new();
    let mut j: usize = 0;
    proof {
        assert(input.take(0) =~= Seq::<ClassMapping>::empty());
    }
    while j < pre.len()
        invariant
            pre@ == input,
            j <= input.len(),
            out@.len() == j,
            by_model_class(out@),
            forall|k: u32| #[trigger] of_model(out@, k) == of_model(input.take(j as int), k),
        decreases input.len() - j,
    {
        let e = pre[j];
        let mut p: usize = 0;
        while p < out.len() && out[p].model_class_id <= e.model_class_id
            invariant
                p <= out@.len(),
                forall|q: int| 0 <= q < p ==> #[trigger] out@[q].model_class_id <= e.model_class_id,
            decreases out@.len() - p,
        {
            p += 1;
        }
        let ghost o = out@;
        proof {
            assert forall|q: int| p <= q < o.len() implies #[trigger] o[q].model_class_id > e.model_class_id by {
                if q > p {
                    assert(o[p as int].model_class_id <= o[q].model_class_id);
                }
            }
        }
        out.insert(p, e);
        proof {
            assert(out@ == o.insert(p as int, e));
            assert(out@ =~= o.take(p as int) + seq![e] + o.skip(p as int));
            assert(o =~= o.take(p as int) + o.skip(p as int));
            assert(e == input[j as int]);
            assert(input.take(j as int + 1).drop_last() =~= input.take(j as int));
            assert(input.take(j as int + 1).last() == e);
            assert forall|k: u32| #[trigger] of_model(out@, k) == of_model(input.take(j as int + 1), k) by {
                lemma_of_model_concat(o.take(p as int) + seq![e], o.skip(p as int), k);
                lemma_of_model_concat(o.take(p as int), seq![e], k);
                lemma_of_model_concat(o.take(p as int), o.skip(p as int), k);
                assert(seq![e].drop_last() =~= Seq::<ClassMapping>::empty());
                assert(seq![e].last() == e);
                assert(of_model(Seq::<ClassMapping>::empty(), k) =~= Seq::<ClassMapping>::empty());
                if k == e.model_class_id {
                    assert(of_model(seq![e], k) =~= seq![e]);
                } else {
                    assert(of_model(seq![e], k) =~= Seq::<ClassMapping>::empty());
                }
                if k == e.model_class_id {
                    lemma_of_model_none(o.skip(p as int), k);
                    assert(of_model(o, k) == of_model(o.take(p as int), k));
                    assert(of_model(input.take(j as int + 1), k) == of_model(input.take(j as int), k).push(e));
                    assert(of_model(out@, k) =~= of_model(o.take(p as int), k).push(e));
                } else {
                    assert(of_model(input.take(j as int + 1), k) == of_model(input.take(j as int), k));
                    assert(of_model(out@, k) =~= of_model(o.take(p as int), k) + of_model(o.skip(p as int), k));
                }
            }
            assert forall|a: int, b: int| 0 <= a < b < out@.len() implies out@[a].model_class_id <= out@[b].model_class_id by {
                if b < p {
                    assert(out@[a] == o[a] && out@[b] == o[b]);
                } else if b == p {
                    assert(out@[a] == o[a]);
                } else if a < p {
                    assert(out@[a] == o[a] && out@[b] == o[b - 1]);
                } else if a == p {
                    assert(out@[b] == o[b - 1]);
                } else {
                    assert(out@[a] == o[a - 1] && out@[b] == o[b - 1]);
                }
            }
        }
        j += 1;
    }
    proof {
        assert(input.take(input.len() as int) =~= input);
    }
    *m = out;
}

} // verus!
