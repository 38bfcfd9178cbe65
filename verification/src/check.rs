//! Structural checks of a story: a start scene, no dead ends, no choice
//! that leads to a scene that does not exist.
use vstd::prelude::*;
use crate::story::{Entries, SceneModel, Story, has_scene, unique_ids};
use crate::text::strings_view;

verus! {

/// The id of the scene where every story starts.
pub open spec fn start_id() -> Seq<char> {
    "inicio"@
}

/// The error for a story without a start scene.
pub open spec fn missing_start_message() -> Seq<char> {
    "história precisa de uma cena chamada 'inicio'"@
}

/// The error for the scene `id` that has neither choices nor an ending.
pub open spec fn dead_end_message(id: Seq<char>) -> Seq<char> {
    "cena '"@ + id + "' sem escolhas e sem @ending (beco sem saída)"@
}

/// The error for the scene `id` whose choice leads to `target`, which does
/// not exist.
pub open spec fn broken_target_message(id: Seq<char>, target: Seq<char>) -> Seq<char> {
    "cena '"@ + id + "' aponta para '"@ + target + "' que não existe"@
}

/// The errors for the choices `cs` of the scene `id`, in order: one for
/// each target that is not a scene of `es`.
pub open spec fn target_errors(es: Entries, id: Seq<char>, cs: Seq<(Seq<char>, Seq<char>)>) -> Seq<
    Seq<char>,
>
    decreases cs.len(),
{
    if cs.len() == 0 {
        seq![]
    } else {
        target_errors(es, id, cs.drop_last()) + if has_scene(es, cs.last().1) {
            seq![]
        } else {
            seq![broken_target_message(id, cs.last().1)]
        }
    }
}

/// Whether a scene leads nowhere: no choices and no ending.
pub open spec fn is_dead_end(sc: SceneModel) -> bool {
    sc.ending is None && sc.choices.len() == 0
}

/// The errors for the scene `sc` with the id `id`.
pub open spec fn scene_errors(es: Entries, id: Seq<char>, sc: SceneModel) -> Seq<Seq<char>> {
    (if is_dead_end(sc) {
        seq![dead_end_message(id)]
    } else {
        seq![]
    }) + target_errors(es, id, sc.choices)
}

/// The errors for the first `k` scenes of `es`.
pub open spec fn errors_upto(es: Entries, k: int) -> Seq<Seq<char>>
    decreases k,
{
    if k <= 0 {
        seq![]
    } else {
        errors_upto(es, k - 1) + scene_errors(es, es[k - 1].0, es[k - 1].1)
    }
}

/// All errors of the story `es`: the missing start scene first, then each
/// scene's errors in the story's order.
pub open spec fn story_errors(es: Entries) -> Seq<Seq<char>> {
    (if has_scene(es, start_id()) {
        seq![]
    } else {
        seq![missing_start_message()]
    }) + errors_upto(es, es.len() as int)
}

/// Whether the choice targets of `cs` are all scenes of `es`.
pub open spec fn targets_exist(es: Entries, cs: Seq<(Seq<char>, Seq<char>)>) -> bool {
    forall|j: int| 0 <= j < cs.len() ==> has_scene(es, (#[trigger] cs[j]).1)
}

/// Whether the story `es` holds together: it has a start scene, every
/// scene has choices or an ending, and every choice leads to a scene of
/// the story.
pub open spec fn consistent(es: Entries) -> bool {
    &&& has_scene(es, start_id())
    &&& forall|i: int| 0 <= i < es.len() ==> !is_dead_end((#[trigger] es[i]).1)
    &&& forall|i: int| 0 <= i < es.len() ==> targets_exist(es, (#[trigger] es[i]).1.choices)
}

proof fn lemma_target_errors_empty(es: Entries, id: Seq<char>, cs: Seq<(Seq<char>, Seq<char>)>)
    ensures
        target_errors(es, id, cs).len() == 0 <==> targets_exist(es, cs),
    decreases cs.len(),
{
    if cs.len() > 0 {
        lemma_target_errors_empty(es, id, cs.drop_last());
        if targets_exist(es, cs) {
            assert forall|j: int| 0 <= j < cs.drop_last().len() implies has_scene(
                es,
                (#[trigger] cs.drop_last()[j]).1,
            ) by {
                assert(cs.drop_last()[j] == cs[j]);
            }
            assert(has_scene(es, cs[cs.len() - 1].1));
        }
        if target_errors(es, id, cs).len() == 0 {
            assert forall|j: int| 0 <= j < cs.len() implies has_scene(es, (#[trigger] cs[j]).1) by {
                if j < cs.len() - 1 {
                    assert(cs.drop_last()[j] == cs[j]);
                }
            }
        }
    }
}

proof fn lemma_errors_upto_empty(es: Entries, k: int)
    requires
        0 <= k <= es.len(),
    ensures
        errors_upto(es, k).len() == 0 <==> forall|i: int|
            0 <= i < k ==> !is_dead_end((#[trigger] es[i]).1) && targets_exist(es, es[i].1.choices),
    decreases k,
{
    if k > 0 {
        lemma_errors_upto_empty(es, k - 1);
        lemma_target_errors_empty(es, es[k - 1].0, es[k - 1].1.choices);
    }
}

/// The law behind `validate`: a story has no errors exactly when it holds
/// together.
pub proof fn lemma_no_errors_iff_consistent(es: Entries)
    ensures
        story_errors(es).len() == 0 <==> consistent(es),
{
    lemma_errors_upto_empty(es, es.len() as int);
    if story_errors(es).len() == 0 {
        assert(has_scene(es, start_id()));
        assert forall|i: int| 0 <= i < es.len() implies !is_dead_end((#[trigger] es[i]).1) by {}
        assert forall|i: int| 0 <= i < es.len() implies targets_exist(
            es,
            (#[trigger] es[i]).1.choices,
        ) by {}
    }
    if consistent(es) {
        assert forall|i: int| 0 <= i < es.len() implies !is_dead_end((#[trigger] es[i]).1)
            && targets_exist(es, es[i].1.choices) by {}
    }
}

/// Where the choices `cs` lead.
pub open spec fn targets_of(cs: Seq<(Seq<char>, Seq<char>)>) -> Seq<Seq<char>> {
    cs.map_values(|c: (Seq<char>, Seq<char>)| c.1)
}

/// Whether `es1` and `es2` have the same shape: the same ids in the same
/// order, the same scenes ending the story, and the same choice targets.
/// Art, text, gradients, choice labels and ending tags may differ.
pub open spec fn same_structure(es1: Entries, es2: Entries) -> bool {
    &&& es1.len() == es2.len()
    &&& forall|i: int|
        0 <= i < es1.len() ==> {
            &&& (#[trigger] es1[i]).0 == es2[i].0
            &&& (es1[i].1.ending is Some) == (es2[i].1.ending is Some)
            &&& targets_of(es1[i].1.choices) == targets_of(es2[i].1.choices)
        }
}

proof fn lemma_same_ids_same_scenes(es1: Entries, es2: Entries, t: Seq<char>)
    requires
        same_structure(es1, es2),
    ensures
        has_scene(es1, t) == has_scene(es2, t),
{
    if has_scene(es1, t) {
        let i = choose|i: int| 0 <= i < es1.len() && (#[trigger] es1[i]).0 == t;
        assert(es2[i].0 == t);
    }
    if has_scene(es2, t) {
        let i = choose|i: int| 0 <= i < es2.len() && (#[trigger] es2[i]).0 == t;
        assert(es1[i].0 == t);
    }
}

/// Whether `es1` and `es2` hold scenes under the same ids.
pub open spec fn same_ids(es1: Entries, es2: Entries) -> bool {
    forall|t: Seq<char>| has_scene(es1, t) == has_scene(es2, t)
}

proof fn lemma_structure_same_ids(es1: Entries, es2: Entries)
    requires
        same_structure(es1, es2),
    ensures
        same_ids(es1, es2),
{
    assert forall|t: Seq<char>| has_scene(es1, t) == has_scene(es2, t) by {
        lemma_same_ids_same_scenes(es1, es2, t);
    }
}

proof fn lemma_target_errors_same(
    es1: Entries,
    es2: Entries,
    id: Seq<char>,
    cs1: Seq<(Seq<char>, Seq<char>)>,
    cs2: Seq<(Seq<char>, Seq<char>)>,
)
    requires
        same_ids(es1, es2),
        targets_of(cs1) == targets_of(cs2),
    ensures
        target_errors(es1, id, cs1) == target_errors(es2, id, cs2),
    decreases cs1.len(),
{
    assert(cs1.len() == targets_of(cs1).len() && cs2.len() == targets_of(cs2).len());
    if cs1.len() > 0 {
        assert(targets_of(cs1.drop_last()) =~= targets_of(cs1).drop_last());
        assert(targets_of(cs2.drop_last()) =~= targets_of(cs2).drop_last());
        lemma_target_errors_same(es1, es2, id, cs1.drop_last(), cs2.drop_last());
        assert(targets_of(cs1)[cs1.len() - 1] == cs1.last().1);
        assert(targets_of(cs2)[cs2.len() - 1] == cs2.last().1);
    }
}

proof fn lemma_errors_upto_same(es1: Entries, es2: Entries, k: int)
    requires
        same_structure(es1, es2),
        0 <= k <= es1.len(),
    ensures
        errors_upto(es1, k) == errors_upto(es2, k),
    decreases k,
{
    if k > 0 {
        lemma_errors_upto_same(es1, es2, k - 1);
        lemma_structure_same_ids(es1, es2);
        let a = es1[k - 1];
        let b = es2[k - 1];
        assert(a.0 == b.0);
        assert(targets_of(a.1.choices) == targets_of(b.1.choices));
        assert(a.1.choices.len() == targets_of(a.1.choices).len());
        assert(b.1.choices.len() == targets_of(b.1.choices).len());
        lemma_target_errors_same(es1, es2, a.0, a.1.choices, b.1.choices);
    }
}

/// What `validate` reports depends only on the scene ids, on which scenes
/// end the story, and on where each choice leads: changing art, text,
/// gradients, choice labels or ending tags changes no error.
pub proof fn lemma_errors_depend_on_structure(es1: Entries, es2: Entries)
    requires
        same_structure(es1, es2),
    ensures
        story_errors(es1) == story_errors(es2),
{
    lemma_errors_upto_same(es1, es2, es1.len() as int);
    lemma_same_ids_same_scenes(es1, es2, start_id());
}

/// The errors of the scenes `l`, one scene after the other, where a choice
/// target counts as existing when it is a scene of `ctx`.
pub open spec fn errors_of(ctx: Entries, l: Entries) -> Seq<Seq<char>>
    decreases l.len(),
{
    if l.len() == 0 {
        seq![]
    } else {
        errors_of(ctx, l.drop_last()) + scene_errors(ctx, l.last().0, l.last().1)
    }
}

proof fn lemma_errors_upto_of(es: Entries, k: int)
    requires
        0 <= k <= es.len(),
    ensures
        errors_upto(es, k) == errors_of(es, es.take(k)),
    decreases k,
{
    if k > 0 {
        lemma_errors_upto_of(es, k - 1);
        assert(es.take(k).drop_last() =~= es.take(k - 1));
        assert(es.take(k).last() == es[k - 1]);
    }
}

proof fn lemma_errors_of_concat(ctx: Entries, l1: Entries, l2: Entries)
    ensures
        errors_of(ctx, l1 + l2) == errors_of(ctx, l1) + errors_of(ctx, l2),
    decreases l2.len(),
{
    if l2.len() == 0 {
        assert(l1 + l2 =~= l1);
        assert(errors_of(ctx, l1) + errors_of(ctx, l2) =~= errors_of(ctx, l1));
    } else {
        assert((l1 + l2).drop_last() =~= l1 + l2.drop_last());
        assert((l1 + l2).last() == l2.last());
        lemma_errors_of_concat(ctx, l1, l2.drop_last());
        assert(errors_of(ctx, l1) + errors_of(ctx, l2.drop_last()) + scene_errors(
            ctx,
            l2.last().0,
            l2.last().1,
        ) =~= errors_of(ctx, l1) + (errors_of(ctx, l2.drop_last()) + scene_errors(
            ctx,
            l2.last().0,
            l2.last().1,
        )));
    }
}

/// Whether two scenes have the same shape: both end the story or neither
/// does, and their choices lead to the same targets in the same order.
pub open spec fn same_shape(sc1: SceneModel, sc2: SceneModel) -> bool {
    &&& (sc1.ending is Some) == (sc2.ending is Some)
    &&& targets_of(sc1.choices) == targets_of(sc2.choices)
}

/// Whether `es1` and `es2` hold, each without repeated ids, scenes under
/// the same ids, and the scenes under each id have the same shape; the
/// order of the scenes may differ.
pub open spec fn same_shape_by_id(es1: Entries, es2: Entries) -> bool {
    &&& unique_ids(es1)
    &&& unique_ids(es2)
    &&& same_ids(es1, es2)
    &&& forall|i: int, j: int|
        0 <= i < es1.len() && 0 <= j < es2.len() && (#[trigger] es1[i]).0 == (#[trigger] es2[j]).0
            ==> same_shape(es1[i].1, es2[j].1)
}

proof fn lemma_scene_errors_same(
    ctx1: Entries,
    ctx2: Entries,
    id: Seq<char>,
    sc1: SceneModel,
    sc2: SceneModel,
)
    requires
        same_ids(ctx1, ctx2),
        same_shape(sc1, sc2),
    ensures
        scene_errors(ctx1, id, sc1) == scene_errors(ctx2, id, sc2),
{
    assert(sc1.choices.len() == targets_of(sc1.choices).len());
    assert(sc2.choices.len() == targets_of(sc2.choices).len());
    lemma_target_errors_same(ctx1, ctx2, id, sc1.choices, sc2.choices);
}

proof fn lemma_errors_of_any_order(ctx1: Entries, ctx2: Entries, l1: Entries, l2: Entries)
    requires
        same_ids(ctx1, ctx2),
        same_shape_by_id(l1, l2),
    ensures
        errors_of(ctx1, l1).to_multiset() == errors_of(ctx2, l2).to_multiset(),
    decreases l1.len(),
{
    broadcast use vstd::seq_lib::lemma_multiset_commutative;

    if l1.len() == 0 {
        if l2.len() > 0 {
            assert(has_scene(l2, l2[0].0));
        }
        return;
    }
    let n = l1.len() - 1;
    let x = l1[n].0;
    assert(has_scene(l1, x));
    let j = choose|j: int| 0 <= j < l2.len() && (#[trigger] l2[j]).0 == x;
    lemma_scene_errors_same(ctx1, ctx2, x, l1[n].1, l2[j].1);
    let g = scene_errors(ctx2, x, l2[j].1);
    let l1r = l1.drop_last();
    let l2r = l2.remove(j);
    assert(l2 =~= l2.take(j) + seq![l2[j]] + l2.skip(j + 1));
    assert(l2r =~= l2.take(j) + l2.skip(j + 1));
    lemma_errors_of_concat(ctx2, l2.take(j) + seq![l2[j]], l2.skip(j + 1));
    lemma_errors_of_concat(ctx2, l2.take(j), seq![l2[j]]);
    lemma_errors_of_concat(ctx2, l2.take(j), l2.skip(j + 1));
    let one = seq![l2[j]];
    assert(one.drop_last() =~= Seq::<(Seq<char>, SceneModel)>::empty());
    assert(errors_of(ctx2, one.drop_last()) == Seq::<Seq<char>>::empty());
    assert(one.last() == l2[j]);
    assert(errors_of(ctx2, one) == errors_of(ctx2, one.drop_last()) + g);
    assert(errors_of(ctx2, one) =~= g);
    let e1 = errors_of(ctx2, l2.take(j));
    let e2 = errors_of(ctx2, l2.skip(j + 1));
    assert(errors_of(ctx2, l2) == e1 + g + e2);
    assert(errors_of(ctx2, l2r) == e1 + e2);
    assert((e1 + g + e2).to_multiset() =~= (e1 + e2).to_multiset().add(g.to_multiset()));
    // the remaining scenes still match by id
    assert forall|i: int, k: int|
        0 <= i < l1r.len() && 0 <= k < l1r.len() && (#[trigger] l1r[i]).0 == (#[trigger] l1r[k]).0
        implies i == k by {
        assert(l1[i] == l1r[i] && l1[k] == l1r[k]);
    }
    assert forall|i: int, k: int|
        0 <= i < l2r.len() && 0 <= k < l2r.len() && (#[trigger] l2r[i]).0 == (#[trigger] l2r[k]).0
        implies i == k by {
        let i2 = if i < j {
            i
        } else {
            i + 1
        };
        let k2 = if k < j {
            k
        } else {
            k + 1
        };
        assert(l2r[i] == l2[i2] && l2r[k] == l2[k2]);
    }
    assert forall|t: Seq<char>| has_scene(l1r, t) == has_scene(l2r, t) by {
        if has_scene(l1r, t) {
            let i = choose|i: int| 0 <= i < l1r.len() && (#[trigger] l1r[i]).0 == t;
            assert(l1[i].0 == t);
            assert(t != x);
            assert(has_scene(l1, t));
            let k = choose|k: int| 0 <= k < l2.len() && (#[trigger] l2[k]).0 == t;
            assert(k != j);
            let k2 = if k < j {
                k
            } else {
                k - 1
            };
            assert(l2r[k2] == l2[k]);
        }
        if has_scene(l2r, t) {
            let k = choose|k: int| 0 <= k < l2r.len() && (#[trigger] l2r[k]).0 == t;
            let k2 = if k < j {
                k
            } else {
                k + 1
            };
            assert(l2r[k] == l2[k2]);
            assert(k2 != j);
            assert(t != x);
            assert(has_scene(l2, t));
            let i = choose|i: int| 0 <= i < l1.len() && (#[trigger] l1[i]).0 == t;
            assert(i != n);
            assert(l1r[i] == l1[i]);
        }
    }
    assert forall|i: int, k: int|
        0 <= i < l1r.len() && 0 <= k < l2r.len() && (#[trigger] l1r[i]).0 == (#[trigger] l2r[k]).0
        implies same_shape(l1r[i].1, l2r[k].1) by {
        let k2 = if k < j {
            k
        } else {
            k + 1
        };
        assert(l2r[k] == l2[k2]);
        assert(l1r[i] == l1[i]);
    }
    lemma_errors_of_any_order(ctx1, ctx2, l1r, l2r);
    assert(l1.drop_last() == l1r);
    assert(errors_of(ctx1, l1) == errors_of(ctx1, l1r) + scene_errors(ctx1, x, l1[n].1));
}

/// What `validate` reports depends only on the scene ids, on which scenes
/// end the story, and on where each choice leads, and not on the order of
/// the scenes: two stories with the same ids whose scenes have, id by id,
/// the same shape get the same messages, each as often.
pub proof fn lemma_errors_ignore_order(es1: Entries, es2: Entries)
    requires
        same_shape_by_id(es1, es2),
    ensures
        story_errors(es1).to_multiset() == story_errors(es2).to_multiset(),
{
    broadcast use vstd::seq_lib::lemma_multiset_commutative;

    lemma_errors_upto_of(es1, es1.len() as int);
    lemma_errors_upto_of(es2, es2.len() as int);
    assert(es1.take(es1.len() as int) =~= es1);
    assert(es2.take(es2.len() as int) =~= es2);
    lemma_errors_of_any_order(es1, es2, es1, es2);
    assert(has_scene(es1, start_id()) == has_scene(es2, start_id()));
}

fn dead_end_text(id: &String) -> (m: String)
    ensures
        m@ == dead_end_message(id@),
{
    let mut m = "cena '".to_owned();
    m.append(id.as_str());
    m.append("' sem escolhas e sem @ending (beco sem saída)");
    m
}

fn broken_target_text(id: &String, target: &String) -> (m: String)
    ensures
        m@ == broken_target_message(id@, target@),
{
    let mut m = "cena '".to_owned();
    m.append(id.as_str());
    m.append("' aponta para '");
    m.append(target.as_str());
    m.append("' que não existe");
    m
}

/// The structural errors of `story`: a missing start scene, scenes with
/// neither choices nor an ending, and choices that lead to scenes that do
/// not exist. The list is empty exactly when the story holds together.
pub fn validate(story: &Story) -> (errs: Vec<String>)
    ensures
        strings_view(errs@) == story_errors(story@),
        errs@.len() == 0 <==> consistent(story@),
{
    let ghost es = story@;
    let mut errs: Vec<String> = Vec::new();
    let start = "inicio".to_owned();
    if !story.contains(&start) {
        errs.push("história precisa de uma cena chamada 'inicio'".to_owned());
    }
    let ghost head = strings_view(errs@);
    proof {
        assert(head =~= if has_scene(es, start_id()) {
            seq![]
        } else {
            seq![missing_start_message()]
        });
    }
    let n = story.len();
    for i in 0..n
        invariant
            n == es.len(),
            es == story@,
            strings_view(errs@) == head + errors_upto(es, i as int),
    {
        let id = story.id_at(i);
        let sc = story.scene_at(i);
        let ghost before = strings_view(errs@);
        if sc.ending.is_none() && sc.choices.len() == 0 {
            errs.push(dead_end_text(id));
        }
        let ghost mid = strings_view(errs@);
        proof {
            assert(mid =~= before + if is_dead_end(sc@) {
                seq![dead_end_message(id@)]
            } else {
                seq![]
            });
        }
        let m = sc.choices.len();
        let ghost cs = sc@.choices;
        assert(cs.take(0) =~= Seq::<(Seq<char>, Seq<char>)>::empty());
        for j in 0..m
            invariant
                m == sc.choices.len(),
                cs == sc@.choices,
                strings_view(errs@) == mid + target_errors(es, id@, cs.take(j as int)),
                es == story@,
        {
            let target = &sc.choices[j].1;
            let ghost b2 = strings_view(errs@);
            if !story.contains(target) {
                errs.push(broken_target_text(id, target));
            }
            proof {
                assert(cs.take(j + 1).drop_last() =~= cs.take(j as int));
                assert(cs.take(j + 1).last() == cs[j as int]);
                assert(cs[j as int].1 == target@);
                assert(strings_view(errs@) =~= b2 + if has_scene(es, target@) {
                    seq![]
                } else {
                    seq![broken_target_message(id@, target@)]
                });
            }
        }
        proof {
            assert(cs.take(m as int) =~= cs);
            assert(strings_view(errs@) =~= head + errors_upto(es, i + 1));
        }
    }
    proof {
        lemma_no_errors_iff_consistent(es);
    }
    errs
}

} // verus!
