//! The in-memory field model: named fields, each holding a set of named
//! fixed-point parameters. Lookup is by name; a name occurs at most once
//! per collection. Both collections are viewed as mathematical maps from
//! name (a sequence of characters) to their contents.
use vstd::prelude::*;

verus! {

/// One named parameter and its fixed-point value.
#[derive(Debug)]
pub struct Binding {
    pub name: String,
    pub value: i64,
}

/// The map described by a sequence of bindings; a later binding for the
/// same name wins.
pub open spec fn map_of_bindings(s: Seq<Binding>) -> Map<Seq<char>, int>
    decreases s.len(),
{
    if s.len() == 0 {
        Map::empty()
    } else {
        map_of_bindings(s.drop_last()).insert(s.last().name@, s.last().value as int)
    }
}

/// Every key of `map_of_bindings(s)` names some binding of `s`, and with
/// distinct names each binding's value is the one in the map.
pub proof fn lemma_map_of_bindings(s: Seq<Binding>)
    ensures
        forall|k: Seq<char>|
            map_of_bindings(s).dom().contains(k) <==> exists|i: int|
                0 <= i < s.len() && #[trigger] s[i].name@ == k,
        (forall|i: int, j: int|
            0 <= i < j < s.len() ==> s[i].name@ != s[j].name@) ==> forall|i: int|
            0 <= i < s.len() ==> map_of_bindings(s)[#[trigger] s[i].name@] == s[i].value as int,
    decreases s.len(),
{
    if s.len() > 0 {
        lemma_map_of_bindings(s.drop_last());
        assert forall|k: Seq<char>| map_of_bindings(s).dom().contains(k) implies exists|i: int|
            0 <= i < s.len() && #[trigger] s[i].name@ == k by {
            if k == s.last().name@ {
                assert(s[s.len() - 1].name@ == k);
            } else {
                assert(map_of_bindings(s.drop_last()).dom().contains(k));
                let i = choose|i: int|
                    0 <= i < s.drop_last().len() && #[trigger] s.drop_last()[i].name@ == k;
                assert(s.drop_last()[i] == s[i]);
                assert(s[i].name@ == k);
            }
        }
        assert forall|i: int| 0 <= i < s.len() implies map_of_bindings(s).dom().contains(
            #[trigger] s[i].name@,
        ) by {
            if i < s.len() - 1 {
                let k = s[i].name@;
                assert(s.drop_last()[i].name@ == k);
                assert(exists|j: int|
                    0 <= j < s.drop_last().len() && #[trigger] s.drop_last()[j].name@ == k);
                assert(map_of_bindings(s.drop_last()).dom().contains(k));
            } else {
                assert(s[i].name@ == s.last().name@);
            }
        }
        if forall|i: int, j: int| 0 <= i < j < s.len() ==> s[i].name@ != s[j].name@ {
            assert forall|i: int| 0 <= i < s.len() implies map_of_bindings(s)[
                #[trigger] s[i].name@] == s[i].value as int by {
                if i < s.len() - 1 {
                    assert(s.drop_last()[i].name@ == s[i].name@);
                    assert(s[i].name@ != s[s.len() - 1].name@);
                }
            }
        }
    }
}

/// Replacing the binding at `i` by one with the same name updates the map
/// at that name alone.
pub proof fn lemma_map_of_bindings_update(s: Seq<Binding>, i: int, b: Binding)
    requires
        0 <= i < s.len(),
        forall|p: int, q: int| 0 <= p < q < s.len() ==> s[p].name@ != s[q].name@,
        b.name@ == s[i].name@,
    ensures
        map_of_bindings(s.update(i, b)) == map_of_bindings(s).insert(b.name@, b.value as int),
    decreases s.len(),
{
    let t = s.update(i, b);
    if i == s.len() - 1 {
        assert(t.drop_last() =~= s.drop_last());
        assert(map_of_bindings(s).insert(b.name@, b.value as int) =~= map_of_bindings(
            s.drop_last(),
        ).insert(b.name@, b.value as int));
    } else {
        assert(t.drop_last() =~= s.drop_last().update(i, b));
        lemma_map_of_bindings_update(s.drop_last(), i, b);
        assert(s.drop_last()[i].name@ == s[i].name@);
        assert(b.name@ != s.last().name@);
        assert(map_of_bindings(s.drop_last()).insert(b.name@, b.value as int).insert(
            s.last().name@,
            s.last().value as int,
        ) =~= map_of_bindings(s.drop_last()).insert(s.last().name@, s.last().value as int).insert(
            b.name@,
            b.value as int,
        ));
    }
}

/// A set of named parameters, unique by name.
#[derive(Debug)]
pub struct ParamSet {
    entries: Vec<Binding>,
}

impl View for ParamSet {
    type V = Map<Seq<char>, int>;

    closed spec fn view(&self) -> Map<Seq<char>, int> {
        map_of_bindings(self.entries@)
    }
}

/// The (name, value) pairs of a sequence of bindings, in order.
pub open spec fn binding_pairs(s: Seq<Binding>) -> Seq<(Seq<char>, int)> {
    s.map(|i: int, b: Binding| (b.name@, b.value as int))
}

/// Folding the pairs of a binding sequence builds the same map as the
/// bindings themselves.
pub proof fn lemma_pairs_map_of(s: Seq<Binding>)
    ensures
        pairs_map(Map::empty(), binding_pairs(s)) == map_of_bindings(s),
    decreases s.len(),
{
    if s.len() > 0 {
        lemma_pairs_map_of(s.drop_last());
        assert(binding_pairs(s).drop_last() =~= binding_pairs(s.drop_last()));
        assert(binding_pairs(s).last() == (s.last().name@, s.last().value as int));
    }
}

impl ParamSet {
    /// The parameters in insertion order, as (name, value) pairs.
    pub closed spec fn entries_view(self) -> Seq<(Seq<char>, int)> {
        binding_pairs(self.entries@)
    }

    /// Folding the ordered pairs rebuilds the map view.
    pub proof fn lemma_as_pairs(self)
        ensures
            pairs_map(Map::empty(), self.entries_view()) == self@,
    {
        lemma_pairs_map_of(self.entries@);
    }

    /// Names are pairwise distinct.
    pub closed spec fn wf(self) -> bool {
        forall|i: int, j: int|
            0 <= i < j < self.entries@.len() ==> self.entries@[i].name@ != self.entries@[j].name@
    }

    /// An empty parameter set.
    pub fn new() -> (r: ParamSet)
        ensures
            r@ == Map::<Seq<char>, int>::empty(),
            r.entries_view() == Seq::<(Seq<char>, int)>::empty(),
            r.wf(),
    {
        let r = ParamSet { entries: Vec::new() };
        proof {
            assert(r.entries_view() =~= Seq::<(Seq<char>, int)>::empty());
        }
        r
    }

    /// Number of parameters.
    pub fn len(&self) -> (r: usize)
        ensures
            r == self.entries_view().len(),
    {
        self.entries.len()
    }

    /// The name of the parameter at position `i`.
    pub fn name_at(&self, i: usize) -> (r: &String)
        requires
            i < self.entries_view().len(),
        ensures
            r@ == self.entries_view()[i as int].0,
    {
        &self.entries[i].name
    }

    /// The value of the parameter at position `i`.
    pub fn value_at(&self, i: usize) -> (r: i64)
        requires
            i < self.entries_view().len(),
        ensures
            r as int == self.entries_view()[i as int].1,
    {
        self.entries[i].value
    }

    /// Look a parameter up by name.
    pub fn get(&self, name: &str) -> (r: Option<i64>)
        requires
            self.wf(),
        ensures
            match r {
                Some(v) => self@.dom().contains(name@) && self@[name@] == v as int,
                None => !self@.dom().contains(name@),
            },
    {
        proof {
            lemma_map_of_bindings(self.entries@);
        }
        let key: String = name.to_owned();
        let n = self.entries.len();
        let mut i: usize = 0;
        while i < n
            invariant
                n == self.entries@.len(),
                0 <= i <= n,
                self.wf(),
                key@ == name@,
                forall|j: int| 0 <= j < i ==> self.entries@[j].name@ != name@,
                forall|k: Seq<char>|
                    self@.dom().contains(k) <==> exists|j: int|
                        0 <= j < self.entries@.len() && #[trigger] self.entries@[j].name@ == k,
                forall|j: int|
                    0 <= j < self.entries@.len() ==> self@[#[trigger] self.entries@[j].name@]
                        == self.entries@[j].value as int,
            decreases n - i,
        {
            if self.entries[i].name == key {
                return Some(self.entries[i].value);
            }
            i += 1;
        }
        None
    }

    /// Insert or overwrite the parameter named `name`.
    pub fn set(&mut self, name: &str, value: i64)
        requires
            old(self).wf(),
        ensures
            final(self).wf(),
            final(self)@ == old(self)@.insert(name@, value as int),
    {
        let key: String = name.to_owned();
        let n = self.entries.len();
        let mut i: usize = 0;
        while i < n
            invariant
                n == self.entries@.len(),
                0 <= i <= n,
                self == old(self),
                self.wf(),
                key@ == name@,
                forall|j: int| 0 <= j < i ==> self.entries@[j].name@ != name@,
            decreases n - i,
        {
            if self.entries[i].name == key {
                let b = Binding { name: key, value };
                let ghost prior = self.entries@;
                proof {
                    lemma_map_of_bindings_update(self.entries@, i as int, b);
                }
                self.entries.set(i, b);
                proof {
                    assert forall|p: int, q: int|
                        0 <= p < q < self.entries@.len() implies self.entries@[p].name@
                        != self.entries@[q].name@ by {
                        assert(self.entries@[p].name@ == prior[p].name@);
                        assert(self.entries@[q].name@ == prior[q].name@);
                    }
                }
                return ;
            }
            i += 1;
        }
        let ghost prior = self.entries@;
        self.entries.push(Binding { name: key, value });
        proof {
            assert(self.entries@.drop_last() =~= prior);
        }
    }
}

/// The map described by a sequence of (name, value) pairs folded onto
/// `acc`; a later pair for the same name wins.
pub open spec fn pairs_map(acc: Map<Seq<char>, int>, ps: Seq<(Seq<char>, int)>) -> Map<
    Seq<char>,
    int,
>
    decreases ps.len(),
{
    if ps.len() == 0 {
        acc
    } else {
        pairs_map(acc, ps.drop_last()).insert(ps.last().0, ps.last().1)
    }
}

/// The map described by a sequence of (name, parameter pairs) pairs
/// folded onto `acc`; a later entry for the same name wins.
pub open spec fn fields_pairs_map(
    acc: Map<Seq<char>, Map<Seq<char>, int>>,
    fs: Seq<(Seq<char>, Seq<(Seq<char>, int)>)>,
) -> Map<Seq<char>, Map<Seq<char>, int>>
    decreases fs.len(),
{
    if fs.len() == 0 {
        acc
    } else {
        fields_pairs_map(acc, fs.drop_last()).insert(
            fs.last().0,
            pairs_map(Map::empty(), fs.last().1),
        )
    }
}

/// One named field and its parameters.
#[derive(Debug)]
pub struct FieldEntry {
    pub name: String,
    pub params: ParamSet,
}

/// The map described by a sequence of field entries; a later entry for
/// the same name wins.
pub open spec fn map_of_fields(s: Seq<FieldEntry>) -> Map<Seq<char>, Map<Seq<char>, int>>
    decreases s.len(),
{
    if s.len() == 0 {
        Map::empty()
    } else {
        map_of_fields(s.drop_last()).insert(s.last().name@, s.last().params@)
    }
}

/// Every key of `map_of_fields(s)` names some entry of `s`, and with
/// distinct names each entry's parameter map is the one in the map.
pub proof fn lemma_map_of_fields(s: Seq<FieldEntry>)
    ensures
        forall|k: Seq<char>|
            map_of_fields(s).dom().contains(k) <==> exists|i: int|
                0 <= i < s.len() && #[trigger] s[i].name@ == k,
        (forall|i: int, j: int|
            0 <= i < j < s.len() ==> s[i].name@ != s[j].name@) ==> forall|i: int|
            0 <= i < s.len() ==> map_of_fields(s)[#[trigger] s[i].name@] == s[i].params@,
    decreases s.len(),
{
    if s.len() > 0 {
        lemma_map_of_fields(s.drop_last());
        assert forall|k: Seq<char>| map_of_fields(s).dom().contains(k) implies exists|i: int|
            0 <= i < s.len() && #[trigger] s[i].name@ == k by {
            if k == s.last().name@ {
                assert(s[s.len() - 1].name@ == k);
            } else {
                assert(map_of_fields(s.drop_last()).dom().contains(k));
                let i = choose|i: int|
                    0 <= i < s.drop_last().len() && #[trigger] s.drop_last()[i].name@ == k;
                assert(s.drop_last()[i] == s[i]);
                assert(s[i].name@ == k);
            }
        }
        assert forall|i: int| 0 <= i < s.len() implies map_of_fields(s).dom().contains(
            #[trigger] s[i].name@,
        ) by {
            if i < s.len() - 1 {
                let k = s[i].name@;
                assert(s.drop_last()[i].name@ == k);
                assert(exists|j: int|
                    0 <= j < s.drop_last().len() && #[trigger] s.drop_last()[j].name@ == k);
                assert(map_of_fields(s.drop_last()).dom().contains(k));
            } else {
                assert(s[i].name@ == s.last().name@);
            }
        }
        if forall|i: int, j: int| 0 <= i < j < s.len() ==> s[i].name@ != s[j].name@ {
            assert forall|i: int| 0 <= i < s.len() implies map_of_fields(s)[
                #[trigger] s[i].name@] == s[i].params@ by {
                if i < s.len() - 1 {
                    assert(s.drop_last()[i].name@ == s[i].name@);
                    assert(s[i].name@ != s[s.len() - 1].name@);
                }
            }
        }
    }
}

/// Replacing the entry at `i` by one with the same name updates the map
/// at that name alone.
pub proof fn lemma_map_of_fields_update(s: Seq<FieldEntry>, i: int, e: FieldEntry)
    requires
        0 <= i < s.len(),
        forall|p: int, q: int| 0 <= p < q < s.len() ==> s[p].name@ != s[q].name@,
        e.name@ == s[i].name@,
    ensures
        map_of_fields(s.update(i, e)) == map_of_fields(s).insert(e.name@, e.params@),
    decreases s.len(),
{
    let t = s.update(i, e);
    if i == s.len() - 1 {
        assert(t.drop_last() =~= s.drop_last());
        assert(map_of_fields(s).insert(e.name@, e.params@) =~= map_of_fields(
            s.drop_last(),
        ).insert(e.name@, e.params@));
    } else {
        assert(t.drop_last() =~= s.drop_last().update(i, e));
        lemma_map_of_fields_update(s.drop_last(), i, e);
        assert(s.drop_last()[i].name@ == s[i].name@);
        assert(e.name@ != s.last().name@);
        assert(map_of_fields(s.drop_last()).insert(e.name@, e.params@).insert(
            s.last().name@,
            s.last().params@,
        ) =~= map_of_fields(s.drop_last()).insert(s.last().name@, s.last().params@).insert(
            e.name@,
            e.params@,
        ));
    }
}

/// A field model: named fields, unique by name, each a set of parameters.
/// The same shape also carries the per-call agent inputs, whose entries
/// map an agent name to that agent's properties.
#[derive(Debug)]
pub struct FieldModel {
    entries: Vec<FieldEntry>,
}

impl View for FieldModel {
    type V = Map<Seq<char>, Map<Seq<char>, int>>;

    closed spec fn view(&self) -> Map<Seq<char>, Map<Seq<char>, int>> {
        map_of_fields(self.entries@)
    }
}

/// The (name, parameter pairs) pairs of a sequence of field entries.
pub open spec fn field_pairs(s: Seq<FieldEntry>) -> Seq<(Seq<char>, Seq<(Seq<char>, int)>)> {
    s.map(|i: int, e: FieldEntry| (e.name@, e.params.entries_view()))
}

/// Folding the pairs of a field-entry sequence builds the same map as
/// the entries themselves.
pub proof fn lemma_fields_pairs_map_of(s: Seq<FieldEntry>)
    ensures
        fields_pairs_map(Map::empty(), field_pairs(s)) == map_of_fields(s),
    decreases s.len(),
{
    if s.len() > 0 {
        lemma_fields_pairs_map_of(s.drop_last());
        assert(field_pairs(s).drop_last() =~= field_pairs(s.drop_last()));
        assert(field_pairs(s).last() == (s.last().name@, s.last().params.entries_view()));
        s.last().params.lemma_as_pairs();
    }
}

impl FieldModel {
    /// The field names in insertion order.
    pub closed spec fn names(self) -> Seq<Seq<char>> {
        self.entries@.map(|i: int, e: FieldEntry| e.name@)
    }

    /// The fields in insertion order, as (name, parameter pairs) pairs.
    pub closed spec fn entries_pairs(self) -> Seq<(Seq<char>, Seq<(Seq<char>, int)>)> {
        field_pairs(self.entries@)
    }

    /// Folding the ordered pairs rebuilds the map view.
    pub proof fn lemma_as_pairs(self)
        ensures
            fields_pairs_map(Map::empty(), self.entries_pairs()) == self@,
            self.entries_pairs().len() == self.names().len(),
            forall|i: int|
                0 <= i < self.names().len() ==> (#[trigger] self.entries_pairs()[i]) == (
                self.names()[i],
                self.params_list()[i].entries_view(),
            ),
    {
        lemma_fields_pairs_map_of(self.entries@);
    }

    /// The parameter sets in insertion order.
    pub closed spec fn params_list(self) -> Seq<ParamSet> {
        self.entries@.map(|i: int, e: FieldEntry| e.params)
    }

    /// Names are pairwise distinct and every parameter set is well formed.
    pub closed spec fn wf(self) -> bool {
        &&& forall|i: int, j: int|
            0 <= i < j < self.entries@.len() ==> self.entries@[i].name@ != self.entries@[j].name@
        &&& forall|i: int|
            0 <= i < self.entries@.len() ==> (#[trigger] self.entries@[i].params).wf()
    }

    /// The map view agrees with the ordered names and parameter sets.
    pub proof fn lemma_names(self)
        requires
            self.wf(),
        ensures
            self.params_list().len() == self.names().len(),
            forall|k: Seq<char>|
                self@.dom().contains(k) <==> exists|i: int|
                    0 <= i < self.names().len() && #[trigger] self.names()[i] == k,
            forall|i: int|
                0 <= i < self.names().len() ==> self@[#[trigger] self.names()[i]]
                    == self.params_list()[i]@,
            forall|i: int|
                0 <= i < self.names().len() ==> (#[trigger] self.params_list()[i]).wf(),
            forall|i: int, j: int|
                0 <= i < j < self.names().len() ==> self.names()[i] != self.names()[j],
    {
        lemma_map_of_fields(self.entries@);
        assert forall|k: Seq<char>| self@.dom().contains(k) implies exists|i: int|
            0 <= i < self.names().len() && #[trigger] self.names()[i] == k by {
            let i = choose|i: int| 0 <= i < self.entries@.len() && #[trigger] self.entries@[i].name@
                == k;
            assert(self.names()[i] == k);
        }
        assert forall|k: Seq<char>|
            (exists|i: int|
                0 <= i < self.names().len() && #[trigger] self.names()[i] == k) implies self@.dom().contains(
            k,
        ) by {
            let i = choose|i: int| 0 <= i < self.names().len() && #[trigger] self.names()[i] == k;
            assert(self.entries@[i].name@ == k);
        }
    }

    /// An empty model.
    pub fn new() -> (r: FieldModel)
        ensures
            r@ == Map::<Seq<char>, Map<Seq<char>, int>>::empty(),
            r.names() == Seq::<Seq<char>>::empty(),
            r.wf(),
    {
        let r = FieldModel { entries: Vec::new() };
        proof {
            assert(r.names() =~= Seq::<Seq<char>>::empty());
        }
        r
    }

    /// Number of fields.
    pub fn num_fields(&self) -> (r: usize)
        ensures
            r == self.names().len(),
    {
        self.entries.len()
    }

    /// The name of the field at position `i`.
    pub fn name_at(&self, i: usize) -> (r: &String)
        requires
            i < self.names().len(),
        ensures
            r@ == self.names()[i as int],
    {
        &self.entries[i].name
    }

    /// The parameters of the field at position `i`.
    pub fn params_at(&self, i: usize) -> (r: &ParamSet)
        requires
            i < self.names().len(),
        ensures
            *r == self.params_list()[i as int],
    {
        &self.entries[i].params
    }

    /// Look a field's parameters up by name.
    pub fn get_params(&self, name: &str) -> (r: Option<&ParamSet>)
        requires
            self.wf(),
        ensures
            match r {
                Some(ps) => self@.dom().contains(name@) && ps@ == self@[name@] && ps.wf(),
                None => !self@.dom().contains(name@),
            },
    {
        proof {
            lemma_map_of_fields(self.entries@);
        }
        let key: String = name.to_owned();
        let n = self.entries.len();
        let mut i: usize = 0;
        while i < n
            invariant
                n == self.entries@.len(),
                0 <= i <= n,
                self.wf(),
                key@ == name@,
                forall|j: int| 0 <= j < i ==> self.entries@[j].name@ != name@,
                forall|k: Seq<char>|
                    self@.dom().contains(k) <==> exists|j: int|
                        0 <= j < self.entries@.len() && #[trigger] self.entries@[j].name@ == k,
                forall|j: int|
                    0 <= j < self.entries@.len() ==> self@[#[trigger] self.entries@[j].name@]
                        == self.entries@[j].params@,
            decreases n - i,
        {
            if self.entries[i].name == key {
                return Some(&self.entries[i].params);
            }
            i += 1;
        }
        None
    }

    /// Create or overwrite the field named `name`.
    pub fn insert_field(&mut self, name: &str, params: ParamSet)
        requires
            old(self).wf(),
            params.wf(),
        ensures
            final(self).wf(),
            final(self)@ == old(self)@.insert(name@, params@),
    {
        let key: String = name.to_owned();
        let n = self.entries.len();
        let mut i: usize = 0;
        while i < n
            invariant
                n == self.entries@.len(),
                0 <= i <= n,
                self == old(self),
                self.wf(),
                params.wf(),
                key@ == name@,
                forall|j: int| 0 <= j < i ==> self.entries@[j].name@ != name@,
            decreases n - i,
        {
            if self.entries[i].name == key {
                let e = FieldEntry { name: key, params };
                let ghost prior = self.entries@;
                proof {
                    lemma_map_of_fields_update(self.entries@, i as int, e);
                }
                self.entries.set(i, e);
                proof {
                    assert forall|p: int, q: int|
                        0 <= p < q < self.entries@.len() implies self.entries@[p].name@
                        != self.entries@[q].name@ by {
                        assert(self.entries@[p].name@ == prior[p].name@);
                        assert(self.entries@[q].name@ == prior[q].name@);
                    }
                    assert forall|p: int|
                        0 <= p < self.entries@.len() implies (
                    #[trigger] self.entries@[p].params).wf() by {
                        if p != i {
                            assert(self.entries@[p] == prior[p]);
                        }
                    }
                }
                return ;
            }
            i += 1;
        }
        let ghost prior = self.entries@;
        self.entries.push(FieldEntry { name: key, params });
        proof {
            assert(self.entries@.drop_last() =~= prior);
            assert forall|p: int|
                0 <= p < self.entries@.len() implies (#[trigger] self.entries@[p].params).wf() by {
                if p < prior.len() {
                    assert(self.entries@[p] == prior[p]);
                }
            }
        }
    }

    /// Set one parameter of the field named `field`, if that field exists.
    /// Returns whether it did.
    pub fn set_param(&mut self, field: &str, param: &str, value: i64) -> (r: bool)
        requires
            old(self).wf(),
        ensures
            final(self).wf(),
            r <==> old(self)@.dom().contains(field@),
            r ==> final(self)@ == old(self)@.insert(
                field@,
                old(self)@[field@].insert(param@, value as int),
            ),
            !r ==> final(self)@ == old(self)@,
            final(self).names() == old(self).names(),
    {
        proof {
            lemma_map_of_fields(self.entries@);
        }
        let key: String = field.to_owned();
        let n = self.entries.len();
        let mut i: usize = 0;
        while i < n
            invariant
                n == self.entries@.len(),
                0 <= i <= n,
                self == old(self),
                self.wf(),
                key@ == field@,
                forall|j: int| 0 <= j < i ==> self.entries@[j].name@ != field@,
                forall|k: Seq<char>|
                    self@.dom().contains(k) <==> exists|j: int|
                        0 <= j < self.entries@.len() && #[trigger] self.entries@[j].name@ == k,
                forall|j: int|
                    0 <= j < self.entries@.len() ==> self@[#[trigger] self.entries@[j].name@]
                        == self.entries@[j].params@,
            decreases n - i,
        {
            if self.entries[i].name == key {
                let ghost prior = self.entries@;
                let mut e = self.entries.remove(i);
                e.params.set(param, value);
                proof {
                    lemma_map_of_fields_update(prior, i as int, e);
                }
                self.entries.insert(i, e);
                proof {
                    assert(self.entries@ =~= prior.update(i as int, e));
                    assert forall|p: int, q: int|
                        0 <= p < q < self.entries@.len() implies self.entries@[p].name@
                        != self.entries@[q].name@ by {
                        assert(self.entries@[p].name@ == prior[p].name@);
                        assert(self.entries@[q].name@ == prior[q].name@);
                    }
                    assert forall|p: int|
                        0 <= p < self.entries@.len() implies (
                    #[trigger] self.entries@[p].params).wf() by {
                        if p != i {
                            assert(self.entries@[p] == prior[p]);
                        }
                    }
                    assert(final(self).names() =~= old(self).names());
                }
                return true;
            }
            i += 1;
        }
        false
    }
}

} // verus!
