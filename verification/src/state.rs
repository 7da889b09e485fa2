//! The state container a host session holds: one field model, populated
//! by a successful parse, and the append-only history of tension values.
use vstd::prelude::*;

use crate::engine;
use crate::engine::MissingFieldError;
use crate::model::FieldModel;
use crate::model::ParamSet;
use crate::parser;
use crate::parser::SyntaxError;

verus! {

/// One interpreter session: a field model and its tension history. The
/// history holds exactly the values the successful tension calls of this
/// session produced, in order; nothing truncates or reorders it.
pub struct WeaveLang {
    fields: FieldModel,
    history: Vec<i64>,
}

impl WeaveLang {
    /// The field model, as a map from field name to parameter map.
    pub closed spec fn fields_view(self) -> Map<Seq<char>, Map<Seq<char>, int>> {
        self.fields@
    }

    /// The tension history, oldest first.
    pub closed spec fn history_view(self) -> Seq<i64> {
        self.history@
    }

    /// The field model is well formed.
    pub closed spec fn wf(self) -> bool {
        self.fields.wf()
    }

    /// A fresh session: empty model, empty history.
    pub fn new() -> (r: WeaveLang)
        ensures
            r.wf(),
            r.fields_view() == Map::<Seq<char>, Map<Seq<char>, int>>::empty(),
            r.history_view() == Seq::<i64>::empty(),
    {
        WeaveLang { fields: FieldModel::new(), history: Vec::new() }
    }

    /// The current field model.
    pub fn fields(&self) -> (r: &FieldModel)
        requires
            self.wf(),
        ensures
            r@ == self.fields_view(),
            r.wf(),
    {
        &self.fields
    }

    /// How many tension values the history holds.
    pub fn history_len(&self) -> (r: usize)
        ensures
            r == self.history_view().len(),
    {
        self.history.len()
    }

    /// The tension value at position `i` of the history.
    pub fn history_at(&self, i: usize) -> (r: i64)
        requires
            i < self.history_view().len(),
        ensures
            r == self.history_view()[i as int],
    {
        self.history[i]
    }

    /// Parse `source` and replace the model with the result. A failed
    /// parse leaves the previous model untouched. The history is never
    /// affected.
    pub fn load_weave(&mut self, source: &str) -> (r: Result<(), SyntaxError>)
        requires
            old(self).wf(),
        ensures
            final(self).wf(),
            final(self).history_view() == old(self).history_view(),
            match r {
                Ok(()) => parser::parse_file(source@) == Some(final(self).fields_view()),
                Err(err) => parser::parse_file(source@) is None && final(self).fields_view()
                    == old(self).fields_view() && err.pos <= source@.len(),
            },
    {
        match parser::parse_weave(source) {
            Ok(m) => {
                self.fields = m;
                Ok(())
            },
            Err(err) => Err(err),
        }
    }

    /// Compute the tension of the current model against `sensors` and,
    /// on success, append it to the history.
    pub fn execute_tension(&mut self, sensors: &ParamSet) -> (r: Result<i64, MissingFieldError>)
        requires
            old(self).wf(),
            sensors.wf(),
        ensures
            final(self).wf(),
            final(self).fields_view() == old(self).fields_view(),
            match r {
                Ok(t) => old(self).fields_view().dom().contains("generalist"@) && t as int
                    == engine::spec_tension(old(self).fields_view(), sensors@) && final(self).history_view() == old(self).history_view().push(t),
                Err(e) => !old(self).fields_view().dom().contains("generalist"@) && e.field@
                    == "generalist"@ && final(self).history_view() == old(self).history_view(),
            },
    {
        match engine::execute_tension(&self.fields, sensors) {
            Ok(t) => {
                self.history.push(t);
                Ok(t)
            },
            Err(e) => Err(e),
        }
    }

    /// Drift the model against the given agents at the given tension.
    pub fn execute_drift(&mut self, agents: &FieldModel, tension: i64)
        requires
            old(self).wf(),
            agents.wf(),
            0 <= tension,
        ensures
            final(self).wf(),
            final(self).history_view() == old(self).history_view(),
            final(self).fields_view() == engine::drift_all(
                old(self).fields_view(),
                agents.names(),
                2 * engine::half_step(tension as int),
            ),
    {
        engine::execute_drift(&mut self.fields, agents, &self.history, tension);
    }

    /// Resolve the model against the given agents at the given tension.
    pub fn execute_resolve(&mut self, agents: &FieldModel, tension: i64)
        requires
            old(self).wf(),
            agents.wf(),
            0 <= tension,
        ensures
            final(self).wf(),
            final(self).history_view() == old(self).history_view(),
            final(self).fields_view() == engine::drift_all(
                old(self).fields_view(),
                agents.names(),
                -engine::half_step(tension as int),
            ),
    {
        engine::execute_resolve(&mut self.fields, agents, tension);
    }

    /// Metaweave the model against the given sensor readings.
    pub fn execute_metaweave(&mut self, sensors: &ParamSet) -> (r: Result<(), MissingFieldError>)
        requires
            old(self).wf(),
            sensors.wf(),
        ensures
            final(self).wf(),
            final(self).history_view() == old(self).history_view(),
            engine::lookup_or(sensors@, "gravity_sensor"@, 0) <= 0 ==> r is Ok && final(self).fields_view() == old(self).fields_view(),
            engine::lookup_or(sensors@, "gravity_sensor"@, 0) > 0 && old(self).fields_view().dom().contains("quantum_expert"@) ==> r is Ok && final(self).fields_view() == old(self).fields_view().insert(
                "quantum_expert"@,
                old(self).fields_view()["quantum_expert"@].insert(
                    "gravity"@,
                    engine::GRAVITY as int,
                ),
            ),
            engine::lookup_or(sensors@, "gravity_sensor"@, 0) > 0 && !old(self).fields_view().dom().contains("quantum_expert"@) ==> (r matches Err(e) && e.field@
                == "quantum_expert"@ && final(self).fields_view() == old(self).fields_view()),
    {
        engine::execute_metaweave(&mut self.fields, sensors)
    }
}

} // verus!
