//! Field-name bookkeeping shared by kernel compositions, and selection of
//! boundary kernels by mesh entity.

use vstd::prelude::*;

verus! {

/// The character sequences of a list of field names.
pub open spec fn names_view(names: Seq<String>) -> Seq<Seq<char>> {
    names.map_values(|name: String| name@)
}

/// The character sequences of an optional list of field names.
pub open spec fn optional_names_view(names: Option<Vec<String>>) -> Option<Seq<Seq<char>>> {
    match names {
        Some(names) => Some(names_view(names@)),
        None => None,
    }
}

/// Owned field names, in order, from string slices.
pub fn owned_names(names: &[&str]) -> (owned: Vec<String>)
    ensures
        owned@.len() == names@.len(),
        forall|k: int| 0 <= k < names@.len() ==> #[trigger] owned@[k]@ == names@[k]@,
{
    let mut owned: Vec<String> = Vec::with_capacity(names.len());
    let mut i: usize = 0;
    while i < names.len()
        invariant
            i <= names@.len(),
            owned@.len() == i,
            forall|k: int| 0 <= k < i ==> #[trigger] owned@[k]@ == names@[k]@,
        decreases names@.len() - i,
    {
        owned.push(names[i].to_owned());
        i = i + 1;
    }
    owned
}

/// Whether two ordered field-name lists are equal name by name.
pub fn same_names(first: &Vec<String>, second: &Vec<String>) -> (same: bool)
    ensures
        same == (names_view(first@) == names_view(second@)),
{
    if first.len() != second.len() {
        proof {
            assert(names_view(first@).len() != names_view(second@).len());
        }
        return false;
    }
    let mut i: usize = 0;
    while i < first.len()
        invariant
            first@.len() == second@.len(),
            i <= first@.len(),
            forall|k: int| 0 <= k < i ==> #[trigger] first@[k]@ == second@[k]@,
        decreases first@.len() - i,
    {
        if !String::eq(&first[i], &second[i]) {
            proof {
                assert(names_view(first@)[i as int] != names_view(second@)[i as int]);
            }
            return false;
        }
        i = i + 1;
    }
    assert(names_view(first@) =~= names_view(second@));
    true
}

/// Whether two optional name lists agree: when both are present they must
/// name the same fields in the same order.
pub open spec fn names_agree(first: Option<Vec<String>>, second: Option<Vec<String>>) -> bool {
    match (first, second) {
        (Some(a), Some(b)) => names_view(a@) == names_view(b@),
        _ => true,
    }
}

/// Decide whether two optional field-name lists can be combined.
pub fn field_names_agree(first: &Option<Vec<String>>, second: &Option<Vec<String>>) -> (agree:
    bool)
    ensures
        agree == names_agree(*first, *second),
{
    match (first, second) {
        (Some(a), Some(b)) => same_names(a, b),
        _ => true,
    }
}

/// The names of a composition of two kernels over the same fields: the first
/// kernel's names when it has them, else the second kernel's.
pub fn merge_field_names(first: Option<Vec<String>>, second: Option<Vec<String>>) -> (merged:
    Option<Vec<String>>)
    requires
        names_agree(first, second),
    ensures
        merged == (if first is Some {
            first
        } else {
            second
        }),
        optional_names_view(merged) == (if first is Some {
            optional_names_view(first)
        } else {
            optional_names_view(second)
        }),
{
    match first {
        Some(first) => Some(first),
        None => second,
    }
}

/// Whether optional names, when present, count exactly `nfields` fields.
pub fn names_fit_count(names: &Option<Vec<String>>, nfields: usize) -> (fits: bool)
    ensures
        fits == (match names {
            Some(names) => names@.len() == nfields,
            None => true,
        }),
{
    match names {
        Some(names) => names.len() == nfields,
        None => true,
    }
}

/// Index of `name` among the union fields, appending it when it is new.
pub fn union_field(fields: &mut Vec<String>, name: &str) -> (index: usize)
    ensures
        index < final(fields)@.len(),
        final(fields)@[index as int]@ == name@,
        forall|j: int| 0 <= j < index ==> #[trigger] final(fields)@[j]@ != name@,
        names_view(old(fields)@).contains(name@) ==> {
            &&& final(fields)@ == old(fields)@
            &&& forall|j: int| 0 <= j < index ==> #[trigger] old(fields)@[j]@ != name@
        },
        !names_view(old(fields)@).contains(name@) ==> {
            &&& names_view(final(fields)@) == names_view(old(fields)@).push(name@)
            &&& index == old(fields)@.len()
        },
        final(fields)@.len() >= old(fields)@.len(),
        forall|j: int| 0 <= j < old(fields)@.len() ==> #[trigger] final(fields)@[j] == old(
            fields,
        )@[j],
{
    let owned = name.to_owned();
    let mut i: usize = 0;
    while i < fields.len()
        invariant
            i <= fields@.len(),
            owned@ == name@,
            fields@ == old(fields)@,
            forall|j: int| 0 <= j < i ==> #[trigger] fields@[j]@ != name@,
        decreases fields@.len() - i,
    {
        if String::eq(&fields[i], &owned) {
            proof {
                assert(names_view(fields@)[i as int] == name@);
            }
            return i;
        }
        i = i + 1;
    }
    proof {
        assert(!names_view(fields@).contains(name@)) by {
            if names_view(fields@).contains(name@) {
                let w = choose|w: int|
                    0 <= w < names_view(fields@).len() && names_view(fields@)[w] == name@;
                assert(fields@[w]@ == name@);
            }
        }
    }
    let index = fields.len();
    fields.push(owned);
    proof {
        assert(names_view(fields@) =~= names_view(old(fields)@).push(name@));
    }
    index
}

/// The union field list after adding `names` in order to `existing`: each name
/// not yet present is appended, in the order of its first appearance.
pub open spec fn union_names(existing: Seq<Seq<char>>, names: Seq<Seq<char>>) -> Seq<Seq<char>>
    decreases names.len(),
{
    if names.len() == 0 {
        existing
    } else {
        let before = union_names(existing, names.drop_last());
        if before.contains(names.last()) {
            before
        } else {
            before.push(names.last())
        }
    }
}

/// Adding names to a union field list never moves a field already listed,
/// and afterwards every added name is listed.
pub proof fn law_union_keeps_existing_fields(existing: Seq<Seq<char>>, names: Seq<Seq<char>>)
    ensures
        union_names(existing, names).len() >= existing.len(),
        forall|i: int|
            0 <= i < existing.len() ==> #[trigger] union_names(existing, names)[i] == existing[i],
        forall|k: int| 0 <= k < names.len() ==> union_names(existing, names).contains(
            #[trigger] names[k],
        ),
    decreases names.len(),
{
    if names.len() > 0 {
        let prefix = names.drop_last();
        law_union_keeps_existing_fields(existing, prefix);
        let before = union_names(existing, prefix);
        assert forall|k: int| 0 <= k < names.len() implies union_names(existing, names).contains(
            #[trigger] names[k],
        ) by {
            if k < names.len() - 1 {
                assert(prefix[k] == names[k]);
                let w = choose|w: int| 0 <= w < before.len() && before[w] == names[k];
                assert(union_names(existing, names)[w] == names[k]);
            } else if !before.contains(names.last()) {
                assert(union_names(existing, names)[before.len() as int] == names[k]);
            }
        }
    }
}

/// Positions in the union fields of each of a kernel's field names,
/// appending the names that are new.
pub fn union_fields(fields: &mut Vec<String>, names: &Vec<String>) -> (map: Vec<usize>)
    ensures
        names_view(final(fields)@) == union_names(names_view(old(fields)@), names_view(names@)),
        map@.len() == names@.len(),
        forall|i: int|
            0 <= i < names@.len() ==> #[trigger] map@[i] < final(fields)@.len()
                && final(fields)@[map@[i] as int]@ == names@[i]@ && forall|j: int|
                0 <= j < map@[i] ==> final(fields)@[j]@ != names@[i]@,
        final(fields)@.len() >= old(fields)@.len(),
        forall|j: int| 0 <= j < old(fields)@.len() ==> #[trigger] final(fields)@[j] == old(
            fields,
        )@[j],
        names_view(old(fields)@).no_duplicates() ==> names_view(final(fields)@).no_duplicates(),
{
    let mut map: Vec<usize> = Vec::with_capacity(names.len());
    let mut i: usize = 0;
    while i < names.len()
        invariant
            i <= names@.len(),
            map@.len() == i,
            names_view(fields@) == union_names(
                names_view(old(fields)@),
                names_view(names@.take(i as int)),
            ),
            forall|k: int|
                0 <= k < i ==> #[trigger] map@[k] < fields@.len() && fields@[map@[k] as int]@
                    == names@[k]@ && forall|j: int| 0 <= j < map@[k] ==> fields@[j]@ != names@[k]@,
            fields@.len() >= old(fields)@.len(),
            forall|j: int| 0 <= j < old(fields)@.len() ==> #[trigger] fields@[j] == old(
                fields,
            )@[j],
            names_view(old(fields)@).no_duplicates() ==> names_view(fields@).no_duplicates(),
        decreases names@.len() - i,
    {
        let ghost before = fields@;
        let index = union_field(fields, names[i].as_str());
        proof {
            assert(names_view(names@.take(i + 1)).drop_last() =~= names_view(
                names@.take(i as int),
            ));
            assert(names_view(names@.take(i + 1)).last() == names@[i as int]@);
            if names_view(before).contains(names@[i as int]@) {
                assert(fields@ == before);
            } else {
                assert(names_view(fields@) == names_view(before).push(names@[i as int]@));
            }
            assert forall|k: int| 0 <= k < i implies #[trigger] map@[k] < fields@.len()
                && fields@[map@[k] as int]@ == names@[k]@ && forall|j: int|
                0 <= j < map@[k] ==> fields@[j]@ != names@[k]@ by {
                assert(map@[k] < before.len());
                assert(fields@[map@[k] as int] == before[map@[k] as int]);
                assert forall|j: int| 0 <= j < map@[k] implies fields@[j]@ != names@[k]@ by {
                    assert(fields@[j] == before[j]);
                }
            }
            if names_view(old(fields)@).no_duplicates() && !names_view(before).contains(
                names@[i as int]@,
            ) {
                let view = names_view(fields@);
                assert forall|a: int, b: int|
                    0 <= a < view.len() && 0 <= b < view.len() && a != b implies view[a]
                    != view[b] by {
                    if a < before.len() && b < before.len() {
                        assert(names_view(before)[a] == view[a]);
                        assert(names_view(before)[b] == view[b]);
                    } else if a < before.len() {
                        assert(names_view(before)[a] == view[a]);
                        assert(names_view(before).contains(view[a]));
                    } else if b < before.len() {
                        assert(names_view(before)[b] == view[b]);
                        assert(names_view(before).contains(view[b]));
                    }
                }
            }
        }
        map.push(index);
        i = i + 1;
    }
    assert(names@.take(names@.len() as int) =~= names@);
    map
}

/// Local index of `field` in a kernel's field map: the position of its first
/// occurrence, or `None` when the kernel does not touch that field.
pub fn local_index(map: &Vec<usize>, field: usize) -> (local: Option<usize>)
    ensures
        match local {
            Some(i) => i < map@.len() && map@[i as int] == field && forall|j: int|
                0 <= j < i ==> #[trigger] map@[j] != field,
            None => !map@.contains(field),
        },
{
    let mut i: usize = 0;
    while i < map.len()
        invariant
            i <= map@.len(),
            forall|j: int| 0 <= j < i ==> #[trigger] map@[j] != field,
        decreases map@.len() - i,
    {
        if map[i] == field {
            return Some(i);
        }
        i = i + 1;
    }
    None
}

/// Statically dispatched additive composition of tensor residual kernels.
///
/// Calling [`Self::with`] nests another concrete kernel in the type, so the
/// pointwise sum remains statically dispatched and inlinable.
pub struct TensorResidualKernelSum<A, B = ()> {
    first: A,
    second: B,
}

impl<A> TensorResidualKernelSum<A, ()> {
    pub fn from_kernel(kernel: A) -> (sum: Self)
        ensures
            sum.first_kernel() == kernel,
    {
        Self { first: kernel, second: () }
    }
}

impl<A, B> TensorResidualKernelSum<A, B> {
    /// The kernel (or nested sum) added first.
    pub closed spec fn first_kernel(&self) -> A {
        self.first
    }

    /// The kernel added last.
    pub closed spec fn second_kernel(&self) -> B {
        self.second
    }

    pub fn with<C>(self, kernel: C) -> (sum: TensorResidualKernelSum<Self, C>)
        ensures
            sum.first_kernel() == self,
            sum.second_kernel() == kernel,
    {
        TensorResidualKernelSum { first: self, second: kernel }
    }

    pub fn first(&self) -> (first: &A)
        ensures
            *first == self.first_kernel(),
    {
        &self.first
    }

    pub fn second(&self) -> (second: &B)
        ensures
            *second == self.second_kernel(),
    {
        &self.second
    }
}

/// State-dependent boundary kernels selected by mesh entity index: an entity
/// configured explicitly uses its own kernel, every other entity the default.
///
/// `K` is the handle through which a kernel is shared, such as a reference
/// counted trait object.
pub struct StateBoundaryTerms<K> {
    default: Option<K>,
    kernels: Vec<K>,
    overrides: std::collections::HashMap<usize, usize>,
}

/// Tensor boundary terms are selected by the same rules.
pub type StateTensorBoundaryTerms<K> = StateBoundaryTerms<K>;

impl<K> StateBoundaryTerms<K> {
    #[verifier::type_invariant]
    spec fn inv(self) -> bool {
        forall|e: usize| #[trigger]
            self.overrides@.contains_key(e) ==> self.overrides@[e] < self.kernels@.len()
    }

    /// The entities configured explicitly.
    pub closed spec fn configured(&self) -> Set<usize> {
        self.overrides@.dom()
    }

    /// The kernel used on `entity`, if any.
    pub closed spec fn kernel_of(&self, entity: usize) -> Option<K> {
        if self.overrides@.contains_key(entity) {
            Some(self.kernels@[self.overrides@[entity] as int])
        } else {
            self.default
        }
    }

    /// The kernel used on entities that are not configured explicitly.
    pub closed spec fn default_kernel(&self) -> Option<K> {
        self.default
    }

    pub fn new() -> (terms: Self)
        ensures
            terms.configured() == Set::<usize>::empty(),
            terms.default_kernel() is None,
            forall|entity: usize| #[trigger] terms.kernel_of(entity) is None,
    {
        broadcast use vstd::std_specs::hash::group_hash_axioms;

        let terms = StateBoundaryTerms {
            default: None,
            kernels: Vec::new(),
            overrides: std::collections::HashMap::new(),
        };
        assert(terms.overrides@ =~= Map::<usize, usize>::empty());
        terms
    }

    /// Use `kernel` on every entity that is not configured explicitly.
    pub fn with_default(self, kernel: K) -> (terms: Self)
        ensures
            terms.configured() == self.configured(),
            terms.default_kernel() == Some(kernel),
            forall|entity: usize| #[trigger]
                terms.kernel_of(entity) == if self.configured().contains(entity) {
                    self.kernel_of(entity)
                } else {
                    Some(kernel)
                },
    {
        proof {
            use_type_invariant(&self);
        }
        StateBoundaryTerms { default: Some(kernel), kernels: self.kernels, overrides: self.overrides }
    }

    /// Whether `entities` can be configured: none is listed twice and none is
    /// configured already.
    pub open spec fn can_configure(&self, entities: Seq<usize>) -> bool {
        &&& entities.no_duplicates()
        &&& forall|i: int| 0 <= i < entities.len() ==> !self.configured().contains(
            #[trigger] entities[i],
        )
    }

    /// Decide whether `entities` can be configured.
    pub fn accepts_entities(&self, entities: &Vec<usize>) -> (accepts: bool)
        ensures
            accepts == self.can_configure(entities@),
    {
        broadcast use vstd::std_specs::hash::group_hash_axioms;

        let mut i: usize = 0;
        while i < entities.len()
            invariant
                i <= entities@.len(),
                forall|a: int, b: int| 0 <= a < b < i ==> entities@[a] != entities@[b],
                forall|a: int| 0 <= a < i ==> !self.configured().contains(#[trigger] entities@[a]),
            decreases entities@.len() - i,
        {
            let entity = entities[i];
            if self.overrides.contains_key(&entity) {
                return false;
            }
            let mut j: usize = 0;
            while j < i
                invariant
                    i < entities@.len(),
                    entity == entities@[i as int],
                    j <= i,
                    forall|a: int| 0 <= a < j ==> entities@[a] != entity,
                decreases i - j,
            {
                if entities[j] == entity {
                    return false;
                }
                j = j + 1;
            }
            i = i + 1;
        }
        true
    }

    /// Use `kernel` on each of `entities`.
    pub fn with_entities(self, entities: Vec<usize>, kernel: K) -> (terms: Self)
        requires
            self.can_configure(entities@),
        ensures
            terms.default_kernel() == self.default_kernel(),
            terms.configured() == self.configured() + entities@.to_set(),
            forall|entity: usize| #[trigger]
                terms.kernel_of(entity) == if entities@.contains(entity) {
                    Some(kernel)
                } else {
                    self.kernel_of(entity)
                },
    {
        broadcast use vstd::std_specs::hash::group_hash_axioms;

        proof {
            use_type_invariant(&self);
        }
        let StateBoundaryTerms { default, mut kernels, mut overrides } = self;
        let slot = kernels.len();
        kernels.push(kernel);
        let ghost start = overrides@;
        let mut i: usize = 0;
        while i < entities.len()
            invariant
                i <= entities@.len(),
                slot == self.kernels@.len(),
                kernels@ == self.kernels@.push(kernel),
                start == self.overrides@,
                overrides@ == start.union_prefer_right(
                    Map::new(|e: usize| entities@.take(i as int).contains(e), |e: usize| slot),
                ),
                forall|e: usize| #[trigger]
                    start.contains_key(e) ==> start[e] < self.kernels@.len(),
            decreases entities@.len() - i,
        {
            let entity = entities[i];
            overrides.insert(entity, slot);
            proof {
                let before = entities@.take(i as int);
                let after = entities@.take(i + 1);
                assert(after =~= before.push(entity));
                assert forall|e: usize| #[trigger] after.contains(e) == (before.contains(e) || e
                    == entity) by {
                    if before.contains(e) {
                        let w = choose|w: int| 0 <= w < before.len() && before[w] == e;
                        assert(after[w] == e);
                    }
                    if after.contains(e) && e != entity {
                        let w = choose|w: int| 0 <= w < after.len() && after[w] == e;
                        assert(before[w] == e);
                    }
                    if e == entity {
                        assert(after[i as int] == e);
                    }
                }
                assert(overrides@ =~= start.union_prefer_right(
                    Map::new(|e: usize| entities@.take(i + 1).contains(e), |e: usize| slot),
                ));
            }
            i = i + 1;
        }
        assert(entities@.take(entities@.len() as int) =~= entities@);
        let terms = StateBoundaryTerms { default, kernels, overrides };
        proof {
            assert(terms.configured() =~= self.configured() + entities@.to_set());
            assert forall|entity: usize| #[trigger] terms.kernel_of(entity) == if entities@.contains(
                entity,
            ) {
                Some(kernel)
            } else {
                self.kernel_of(entity)
            } by {
                if !entities@.contains(entity) && start.contains_key(entity) {
                    assert(kernels@[start[entity] as int] == self.kernels@[start[entity] as int]);
                }
            }
        }
        terms
    }

    /// The kernel used on `entity`: its own kernel, else the default.
    pub fn kernel_for(&self, entity: usize) -> (kernel: Option<&K>)
        ensures
            match kernel {
                Some(k) => self.kernel_of(entity) == Some(*k),
                None => self.kernel_of(entity) is None,
            },
    {
        broadcast use vstd::std_specs::hash::group_hash_axioms;

        proof {
            use_type_invariant(self);
        }
        match self.overrides.get(&entity) {
            Some(slot) => Some(&self.kernels[*slot]),
            None => self.default.as_ref(),
        }
    }
}

/// One configuration call on boundary terms.
pub ghost enum TermsCall<K> {
    /// `with_default(kernel)`.
    WithDefault(K),
    /// `with_entities(entities, kernel)`.
    WithEntities(Seq<usize>, K),
}

impl<K> StateBoundaryTerms<K> {
    /// `self` is what `new` returns.
    pub open spec fn is_new(&self) -> bool {
        &&& self.configured() == Set::<usize>::empty()
        &&& self.default_kernel() is None
        &&& forall|entity: usize| #[trigger] self.kernel_of(entity) is None
    }

    /// `after` is what `call` on `before` returns, as the call's contract
    /// states it.
    pub open spec fn follows_call(before: Self, after: Self, call: TermsCall<K>) -> bool {
        match call {
            TermsCall::WithDefault(kernel) => {
                &&& after.configured() == before.configured()
                &&& after.default_kernel() == Some(kernel)
                &&& forall|entity: usize| #[trigger]
                    after.kernel_of(entity) == if before.configured().contains(entity) {
                        before.kernel_of(entity)
                    } else {
                        Some(kernel)
                    }
            },
            TermsCall::WithEntities(entities, kernel) => {
                &&& before.can_configure(entities)
                &&& after.default_kernel() == before.default_kernel()
                &&& after.configured() == before.configured() + entities.to_set()
                &&& forall|entity: usize| #[trigger]
                    after.kernel_of(entity) == if entities.contains(entity) {
                        Some(kernel)
                    } else {
                        before.kernel_of(entity)
                    }
            },
        }
    }
}

/// The kernel that the last `with_entities` call naming `entity` registered.
pub open spec fn entity_kernel<K>(calls: Seq<TermsCall<K>>, entity: usize) -> Option<K>
    decreases calls.len(),
{
    if calls.len() == 0 {
        None
    } else {
        match calls.last() {
            TermsCall::WithEntities(entities, kernel) if entities.contains(entity) => Some(kernel),
            _ => entity_kernel(calls.drop_last(), entity),
        }
    }
}

/// The kernel of the last `with_default` call.
pub open spec fn last_default<K>(calls: Seq<TermsCall<K>>) -> Option<K>
    decreases calls.len(),
{
    if calls.len() == 0 {
        None
    } else {
        match calls.last() {
            TermsCall::WithDefault(kernel) => Some(kernel),
            _ => last_default(calls.drop_last()),
        }
    }
}

/// Boundary terms built from `new` by any sequence of `with_default` and
/// `with_entities` calls give an entity the kernel registered for it by
/// `with_entities`, if any; else the kernel of the last `with_default` call;
/// else none. An entity's own kernel wins over the default whatever the order
/// of the calls.
pub proof fn law_entity_kernel_wins_over_default<K>(
    calls: Seq<TermsCall<K>>,
    states: Seq<StateBoundaryTerms<K>>,
)
    requires
        states.len() == calls.len() + 1,
        states[0].is_new(),
        forall|i: int|
            0 <= i < calls.len() ==> #[trigger] StateBoundaryTerms::follows_call(
                states[i],
                states[i + 1],
                calls[i],
            ),
    ensures
        forall|entity: usize| #[trigger]
            states.last().kernel_of(entity) == match entity_kernel(calls, entity) {
                Some(kernel) => Some(kernel),
                None => last_default(calls),
            },
{
    lemma_terms_calls(calls, states);
}

proof fn lemma_terms_calls<K>(calls: Seq<TermsCall<K>>, states: Seq<StateBoundaryTerms<K>>)
    requires
        states.len() == calls.len() + 1,
        states[0].is_new(),
        forall|i: int|
            0 <= i < calls.len() ==> #[trigger] StateBoundaryTerms::follows_call(
                states[i],
                states[i + 1],
                calls[i],
            ),
    ensures
        states.last().default_kernel() == last_default(calls),
        forall|entity: usize| #[trigger]
            states.last().configured().contains(entity) <==> entity_kernel(calls, entity) is Some,
        forall|entity: usize| #[trigger]
            states.last().kernel_of(entity) == match entity_kernel(calls, entity) {
                Some(kernel) => Some(kernel),
                None => last_default(calls),
            },
    decreases calls.len(),
{
    if calls.len() > 0 {
        let prefix = calls.drop_last();
        let earlier = states.drop_last();
        assert forall|i: int| 0 <= i < prefix.len() implies #[trigger] StateBoundaryTerms::follows_call(
            earlier[i],
            earlier[i + 1],
            prefix[i],
        ) by {
            assert(StateBoundaryTerms::follows_call(states[i], states[i + 1], calls[i]));
        }
        lemma_terms_calls(prefix, earlier);
        let k = calls.len() - 1;
        let before = states[k];
        let after = states[k + 1];
        assert(earlier.last() == before);
        assert(StateBoundaryTerms::follows_call(before, after, calls[k]));
        assert(calls.last() == calls[k]);
        assert forall|entity: usize| #[trigger]
            after.configured().contains(entity) <==> entity_kernel(calls, entity) is Some by {
            assert(before.configured().contains(entity) <==> entity_kernel(prefix, entity) is Some);
        }
        assert forall|entity: usize| #[trigger]
            after.kernel_of(entity) == match entity_kernel(calls, entity) {
                Some(kernel) => Some(kernel),
                None => last_default(calls),
            } by {
            assert(before.configured().contains(entity) <==> entity_kernel(prefix, entity) is Some);
            assert(before.kernel_of(entity) == match entity_kernel(prefix, entity) {
                Some(kernel) => Some(kernel),
                None => last_default(prefix),
            });
        }
    }
}

} // verus!
