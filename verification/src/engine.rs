//! The update engine: four operators that read or mutate a field model
//! from externally supplied sensor readings and agent inputs.
//!
//! * `execute_tension` measures how far the `coherence` sensor sits from
//!   the `generalist` field's `coherence_target`.
//! * `execute_drift` and `execute_resolve` are the two directional halves
//!   of one feedback rule: for every agent whose name matches a field,
//!   the field's `coherence_target` (or, failing that, `physics_constant`)
//!   moves up by twice the step that resolve moves it down.
//! * `execute_metaweave` sets `quantum_expert.gravity` to `9.81` whenever
//!   the `gravity_sensor` reading is strictly positive.
use vstd::prelude::*;

use crate::clamp_i64;
use crate::model::FieldModel;
use crate::model::ParamSet;
use crate::sat_add;

verus! {

/// The default coherence target, `0.5`, in millionths.
pub const DEFAULT_COHERENCE_TARGET: i64 = 500_000;

/// Standard gravity, `9.81`, in millionths.
pub const GRAVITY: i64 = 9_810_000;

/// An update operator required a field that the model does not have.
#[derive(Debug)]
pub struct MissingFieldError {
    /// The name of the missing field.
    pub field: String,
}

/// The value at `k` in `m`, or `d` where `m` has no entry for `k`.
pub open spec fn lookup_or(m: Map<Seq<char>, int>, k: Seq<char>, d: int) -> int {
    if m.dom().contains(k) {
        m[k]
    } else {
        d
    }
}

/// The absolute value.
pub open spec fn abs_int(x: int) -> int {
    if x < 0 {
        -x
    } else {
        x
    }
}

/// The tension of a model and sensor readings: the distance from the
/// `coherence` reading (default `0`) to the `generalist` field's
/// `coherence_target` (default `0.5`), clamped into the `i64` range.
pub open spec fn spec_tension(
    fields: Map<Seq<char>, Map<Seq<char>, int>>,
    sensors: Map<Seq<char>, int>,
) -> int {
    clamp_i64(
        abs_int(
            lookup_or(sensors, "coherence"@, 0) - lookup_or(
                fields["generalist"@],
                "coherence_target"@,
                DEFAULT_COHERENCE_TARGET as int,
            ),
        ),
    )
}

/// Half of a drift step for a given tension: `tension * 0.005`, rounded
/// down to the fixed-point grid. Drift adds twice this; resolve subtracts
/// it once.
pub open spec fn half_step(t: int) -> int {
    t / 200
}

/// The parameter a feedback step lands on: `coherence_target` if present,
/// else `physics_constant`, else none.
pub open spec fn target_key(ps: Map<Seq<char>, int>) -> Option<Seq<char>> {
    if ps.dom().contains("coherence_target"@) {
        Some("coherence_target"@)
    } else if ps.dom().contains("physics_constant"@) {
        Some("physics_constant"@)
    } else {
        None
    }
}

/// One parameter set after a feedback step of `d`: the target parameter,
/// if any, moves by `d`, saturating at the `i64` bounds.
pub open spec fn stepped(ps: Map<Seq<char>, int>, d: int) -> Map<Seq<char>, int> {
    match target_key(ps) {
        Some(k) => ps.insert(k, clamp_i64(ps[k] + d)),
        None => ps,
    }
}

/// One model after a feedback step of `d` on the field named `n`, if
/// present; an agent name with no matching field changes nothing.
pub open spec fn drift_one(
    m: Map<Seq<char>, Map<Seq<char>, int>>,
    n: Seq<char>,
    d: int,
) -> Map<Seq<char>, Map<Seq<char>, int>> {
    if m.dom().contains(n) {
        m.insert(n, stepped(m[n], d))
    } else {
        m
    }
}

/// One model after a feedback step of `d` for each name in `names`.
pub open spec fn drift_all(
    m: Map<Seq<char>, Map<Seq<char>, int>>,
    names: Seq<Seq<char>>,
    d: int,
) -> Map<Seq<char>, Map<Seq<char>, int>>
    decreases names.len(),
{
    if names.len() == 0 {
        m
    } else {
        drift_one(drift_all(m, names.drop_last(), d), names.last(), d)
    }
}

/// Compute the tension of the model and the given sensor readings.
/// The `generalist` field must exist; its absence is the one error.
pub fn execute_tension(fields: &FieldModel, sensors: &ParamSet) -> (r: Result<
    i64,
    MissingFieldError,
>)
    requires
        fields.wf(),
        sensors.wf(),
    ensures
        match r {
            Ok(t) => fields@.dom().contains("generalist"@) && t as int == spec_tension(
                fields@,
                sensors@,
            ),
            Err(e) => !fields@.dom().contains("generalist"@) && e.field@ == "generalist"@,
        },
{
    match fields.get_params("generalist") {
        None => Err(MissingFieldError { field: "generalist".to_owned() }),
        Some(ps) => {
            let reading: i64 = match sensors.get("coherence") {
                Some(v) => v,
                None => 0,
            };
            let goal: i64 = match ps.get("coherence_target") {
                Some(v) => v,
                None => DEFAULT_COHERENCE_TARGET,
            };
            let wide: i128 = reading as i128 - goal as i128;
            let mag: i128 = if wide < 0 {
                -wide
            } else {
                wide
            };
            if mag > i64::MAX as i128 {
                Ok(i64::MAX)
            } else {
                Ok(mag as i64)
            }
        },
    }
}

/// Apply one feedback step of `delta` for every agent name.
fn apply_feedback(fields: &mut FieldModel, agents: &FieldModel, delta: i64)
    requires
        old(fields).wf(),
        agents.wf(),
    ensures
        final(fields).wf(),
        final(fields)@ == drift_all(old(fields)@, agents.names(), delta as int),
{
    let n = agents.num_fields();
    let mut i: usize = 0;
    while i < n
        invariant
            n == agents.names().len(),
            0 <= i <= n,
            fields.wf(),
            agents.wf(),
            fields@ == drift_all(old(fields)@, agents.names().take(i as int), delta as int),
        decreases n - i,
    {
        let name = agents.name_at(i);
        let ghost prev = fields@;
        let mut todo: Option<(bool, i64)> = None;
        match fields.get_params(name.as_str()) {
            None => {},
            Some(ps) => {
                match ps.get("coherence_target") {
                    Some(v) => {
                        todo = Some((true, v));
                    },
                    None => {
                        match ps.get("physics_constant") {
                            Some(v) => {
                                todo = Some((false, v));
                            },
                            None => {},
                        }
                    },
                }
            },
        }
        match todo {
            None => {
                proof {
                    if prev.dom().contains(name@) {
                        assert(stepped(prev[name@], delta as int) =~= prev[name@]);
                        assert(drift_one(prev, name@, delta as int) =~= prev);
                    }
                }
            },
            Some((on_target, v)) => {
                let pname: &str = if on_target {
                    "coherence_target"
                } else {
                    "physics_constant"
                };
                let updated = sat_add(v, delta);
                fields.set_param(name.as_str(), pname, updated);
                proof {
                    assert(fields@ =~= drift_one(prev, name@, delta as int));
                }
            },
        }
        proof {
            assert(agents.names().take(i + 1).drop_last() =~= agents.names().take(i as int));
            assert(agents.names().take(i + 1).last() == agents.names()[i as int]);
        }
        i += 1;
    }
    proof {
        assert(agents.names().take(n as int) =~= agents.names());
    }
}

/// Drift: for every agent whose name matches a field, move that field's
/// target parameter up by `tension * 0.01` (twice the resolve step).
/// `history` is accepted for interface stability and not yet consulted.
pub fn execute_drift(fields: &mut FieldModel, agents: &FieldModel, history: &Vec<i64>, tension: i64)
    requires
        old(fields).wf(),
        agents.wf(),
        0 <= tension,
    ensures
        final(fields).wf(),
        final(fields)@ == drift_all(old(fields)@, agents.names(), 2 * half_step(tension as int)),
{
    let step: i64 = ((tension as u64) / 200) as i64;
    apply_feedback(fields, agents, 2 * step);
}

/// Resolve: for every agent whose name matches a field, move that field's
/// target parameter down by `tension * 0.005` (half the drift step).
pub fn execute_resolve(fields: &mut FieldModel, agents: &FieldModel, tension: i64)
    requires
        old(fields).wf(),
        agents.wf(),
        0 <= tension,
    ensures
        final(fields).wf(),
        final(fields)@ == drift_all(old(fields)@, agents.names(), -half_step(tension as int)),
{
    let step: i64 = ((tension as u64) / 200) as i64;
    apply_feedback(fields, agents, -step);
}

/// Metaweave: when the `gravity_sensor` reading (default `0`) is strictly
/// positive, set `quantum_expert.gravity` to `9.81`; the `quantum_expert`
/// field must then exist. When the reading is not positive nothing happens.
pub fn execute_metaweave(fields: &mut FieldModel, sensors: &ParamSet) -> (r: Result<
    (),
    MissingFieldError,
>)
    requires
        old(fields).wf(),
        sensors.wf(),
    ensures
        final(fields).wf(),
        lookup_or(sensors@, "gravity_sensor"@, 0) <= 0 ==> r is Ok && final(fields)@ == old(
            fields,
        )@,
        lookup_or(sensors@, "gravity_sensor"@, 0) > 0 && old(fields)@.dom().contains(
            "quantum_expert"@,
        ) ==> r is Ok && final(fields)@ == old(fields)@.insert(
            "quantum_expert"@,
            old(fields)@["quantum_expert"@].insert("gravity"@, GRAVITY as int),
        ),
        lookup_or(sensors@, "gravity_sensor"@, 0) > 0 && !old(fields)@.dom().contains(
            "quantum_expert"@,
        ) ==> (r matches Err(e) && e.field@ == "quantum_expert"@ && final(fields)@ == old(
            fields,
        )@),
{
    let reading: i64 = match sensors.get("gravity_sensor") {
        Some(v) => v,
        None => 0,
    };
    if reading > 0 {
        if fields.set_param("quantum_expert", "gravity", GRAVITY) {
            Ok(())
        } else {
            Err(MissingFieldError { field: "quantum_expert".to_owned() })
        }
    } else {
        Ok(())
    }
}

/// Drift and resolve are symmetric: on any parameter set with a target
/// parameter, one drift step moves the target up by exactly twice the
/// amount one resolve step of the same tension moves it down, as long as
/// neither step saturates; with no target parameter, both leave the set
/// unchanged.
pub proof fn lemma_drift_resolve_symmetry(ps: Map<Seq<char>, int>, t: int)
    requires
        0 <= t,
        target_key(ps) matches Some(k) ==> ps[k] + 2 * half_step(t) <= i64::MAX && i64::MIN <= ps[
            k
        ] - half_step(t),
    ensures
        target_key(ps) matches Some(k) ==> stepped(ps, 2 * half_step(t))[k] - ps[k] == 2 * (ps[k]
            - stepped(ps, -half_step(t))[k]),
        target_key(ps) is None ==> stepped(ps, 2 * half_step(t)) == ps && stepped(
            ps,
            -half_step(t),
        ) == ps,
{
}

/// Feedback touches only `coherence_target` when a set has both it and
/// `physics_constant`: every other parameter, `physics_constant` included,
/// keeps its value, and no parameter appears or disappears.
pub proof fn lemma_target_priority(ps: Map<Seq<char>, int>, d: int)
    requires
        ps.dom().contains("coherence_target"@),
        ps.dom().contains("physics_constant"@),
    ensures
        stepped(ps, d).dom() == ps.dom(),
        stepped(ps, d)["physics_constant"@] == ps["physics_constant"@],
        forall|k: Seq<char>|
            ps.dom().contains(k) && k != "coherence_target"@ ==> stepped(ps, d)[k] == ps[k],
{
    reveal_strlit("coherence_target");
    reveal_strlit("physics_constant");
    assert("coherence_target"@ != "physics_constant"@) by {
        assert("coherence_target"@[0] != "physics_constant"@[0]);
    }
    assert(stepped(ps, d).dom() =~= ps.dom());
}

/// Drift and resolve are symmetric over a whole model: for identical
/// fields, agents and tension, the drift pass moves each matched target
/// parameter up by exactly twice what the resolve pass moves it down, as
/// long as neither step saturates, and neither pass touches a field
/// without a target parameter or a field no agent names.
pub proof fn lemma_model_drift_resolve_symmetry(
    m: Map<Seq<char>, Map<Seq<char>, int>>,
    names: Seq<Seq<char>>,
    t: int,
)
    requires
        0 <= t,
        forall|i: int, j: int| 0 <= i < j < names.len() ==> names[i] != names[j],
        forall|k: Seq<char>|
            m.dom().contains(k) && #[trigger] names.contains(k) ==> (target_key(m[k]) matches Some(
                p,
            ) ==> m[k][p] + 2 * half_step(t) <= i64::MAX && i64::MIN <= m[k][p] - half_step(t)),
    ensures
        drift_all(m, names, 2 * half_step(t)).dom() == m.dom(),
        drift_all(m, names, -half_step(t)).dom() == m.dom(),
        forall|k: Seq<char>|
            m.dom().contains(k) && #[trigger] names.contains(k) ==> (match target_key(m[k]) {
                Some(p) => drift_all(m, names, 2 * half_step(t))[k][p] - m[k][p] == 2 * (m[k][p]
                    - drift_all(m, names, -half_step(t))[k][p]),
                None => drift_all(m, names, 2 * half_step(t))[k] == m[k] && drift_all(
                    m,
                    names,
                    -half_step(t),
                )[k] == m[k],
            }),
        forall|k: Seq<char>|
            m.dom().contains(k) && !(#[trigger] names.contains(k)) ==> drift_all(
                m,
                names,
                2 * half_step(t),
            )[k] == m[k] && drift_all(m, names, -half_step(t))[k] == m[k],
{
    lemma_drift_pointwise(m, names, 2 * half_step(t));
    lemma_drift_pointwise(m, names, -half_step(t));
    assert forall|k: Seq<char>|
        m.dom().contains(k) && #[trigger] names.contains(k) implies (match target_key(m[k]) {
        Some(p) => drift_all(m, names, 2 * half_step(t))[k][p] - m[k][p] == 2 * (m[k][p]
            - drift_all(m, names, -half_step(t))[k][p]),
        None => drift_all(m, names, 2 * half_step(t))[k] == m[k] && drift_all(
            m,
            names,
            -half_step(t),
        )[k] == m[k],
    }) by {
        lemma_drift_resolve_symmetry(m[k], t);
    }
}

/// Agent names with no matching field leave the model exactly as it was.
pub proof fn lemma_drift_skips_unmatched(
    m: Map<Seq<char>, Map<Seq<char>, int>>,
    names: Seq<Seq<char>>,
    d: int,
)
    requires
        forall|i: int| 0 <= i < names.len() ==> !m.dom().contains(#[trigger] names[i]),
    ensures
        drift_all(m, names, d) == m,
    decreases names.len(),
{
    if names.len() > 0 {
        assert forall|i: int| 0 <= i < names.drop_last().len() implies !m.dom().contains(
            #[trigger] names.drop_last()[i],
        ) by {
            assert(names.drop_last()[i] == names[i]);
        }
        lemma_drift_skips_unmatched(m, names.drop_last(), d);
        assert(names[names.len() - 1] == names.last());
    }
}

/// A feedback pass over distinct agent names, read pointwise: it keeps
/// the set of fields, steps each field whose name is an agent name, and
/// leaves every other field untouched.
pub proof fn lemma_drift_pointwise(
    m: Map<Seq<char>, Map<Seq<char>, int>>,
    names: Seq<Seq<char>>,
    d: int,
)
    requires
        forall|i: int, j: int| 0 <= i < j < names.len() ==> names[i] != names[j],
    ensures
        drift_all(m, names, d).dom() == m.dom(),
        forall|k: Seq<char>|
            m.dom().contains(k) ==> drift_all(m, names, d)[k] == (if names.contains(k) {
                stepped(m[k], d)
            } else {
                m[k]
            }),
    decreases names.len(),
{
    if names.len() == 0 {
        assert(drift_all(m, names, d).dom() =~= m.dom());
    } else {
        let fore = names.drop_last();
        assert forall|i: int, j: int| 0 <= i < j < fore.len() implies fore[i] != fore[j] by {
            assert(fore[i] == names[i] && fore[j] == names[j]);
        }
        lemma_drift_pointwise(m, fore, d);
        let mid = drift_all(m, fore, d);
        assert(drift_all(m, names, d) == drift_one(mid, names.last(), d));
        assert(drift_all(m, names, d).dom() =~= m.dom());
        assert forall|k: Seq<char>| m.dom().contains(k) implies drift_all(m, names, d)[k] == (
        if names.contains(k) {
            stepped(m[k], d)
        } else {
            m[k]
        }) by {
            if k == names.last() {
                assert(!fore.contains(k)) by {
                    if fore.contains(k) {
                        let i = choose|i: int| 0 <= i < fore.len() && fore[i] == k;
                        assert(names[i] == names[names.len() - 1]);
                    }
                }
                assert(names.contains(k)) by {
                    assert(names[names.len() - 1] == k);
                }
                assert(mid[k] == m[k]);
            } else {
                if names.contains(k) {
                    let i = choose|i: int| 0 <= i < names.len() && names[i] == k;
                    assert(fore[i] == k);
                    assert(fore.contains(k));
                } else {
                    assert(!fore.contains(k)) by {
                        if fore.contains(k) {
                            let i = choose|i: int| 0 <= i < fore.len() && fore[i] == k;
                            assert(names[i] == k);
                            assert(names.contains(k));
                        }
                    }
                }
            }
        }
    }
}

} // verus!
