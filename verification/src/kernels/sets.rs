//! Compositions of residual kernels and the field layouts they share.
//!
//! A sum adds kernels that all describe the same ordered fields. A set
//! combines kernels over different named fields: its system fields are the
//! union of the kernels' names, and each kernel keeps maps from its own local
//! field positions to the union positions.

use vstd::prelude::*;
use crate::kernels::common::{
    field_names_agree, local_index, names_fit_count, names_view, optional_names_view,
    union_fields, union_names,
};

verus! {

/// Whether optional names, when present, count exactly `nfields` fields.
pub open spec fn names_fit(names: Option<Vec<String>>, nfields: usize) -> bool {
    match names {
        Some(names) => names@.len() == nfields,
        None => true,
    }
}

/// A copy of a list of field names.
pub fn copy_names(names: &Vec<String>) -> (copy: Vec<String>)
    ensures
        copy@ == names@,
{
    let mut copy: Vec<String> = Vec::with_capacity(names.len());
    let mut i: usize = 0;
    while i < names.len()
        invariant
            i <= names@.len(),
            copy@ == names@.take(i as int),
        decreases names@.len() - i,
    {
        copy.push(names[i].clone());
        assert(copy@ =~= names@.take(i + 1));
        i = i + 1;
    }
    assert(names@.take(names@.len() as int) =~= names@);
    copy
}

/// Additive composition of kernels over the same ordered system fields.
///
/// Every kernel describes `nfields` fields; the names, where kernels give
/// them, must agree name by name and in order.
pub struct ResidualKernelSum<K> {
    kernels: Vec<K>,
    nfields: usize,
    field_names: Option<Vec<String>>,
}

impl<K> ResidualKernelSum<K> {
    #[verifier::type_invariant]
    spec fn inv(self) -> bool {
        &&& self.nfields > 0
        &&& names_fit(self.field_names, self.nfields)
    }

    /// The kernels, in the order they were added.
    pub closed spec fn kernels_view(&self) -> Seq<K> {
        self.kernels@
    }

    /// The number of fields every kernel describes.
    pub closed spec fn field_count(&self) -> usize {
        self.nfields
    }

    /// The field names of the first kernel that gave any.
    pub closed spec fn names(&self) -> Option<Seq<Seq<char>>> {
        optional_names_view(self.field_names)
    }

    /// Whether a kernel over `nfields` fields named `names` can join the sum.
    pub open spec fn accepts(&self, nfields: usize, names: Option<Vec<String>>) -> bool {
        &&& nfields == self.field_count()
        &&& names_fit(names, nfields)
        &&& match (self.names(), optional_names_view(names)) {
            (Some(expected), Some(actual)) => expected == actual,
            _ => true,
        }
    }

    /// A kernel that names its fields can join a sum that has names exactly
    /// when it describes the sum's number of fields and its names equal the
    /// sum's at every position, the last one included.
    pub proof fn law_named_kernel_joins_only_with_equal_names(
        &self,
        nfields: usize,
        names: Vec<String>,
    )
        requires
            self.names() is Some,
        ensures
            self.accepts(nfields, Some(names)) <==> {
                &&& nfields == self.field_count()
                &&& names@.len() == nfields
                &&& names@.len() == self.names()->0.len()
                &&& forall|i: int|
                    0 <= i < names@.len() ==> #[trigger] names@[i]@ == self.names()->0[i]
            },
    {
        let expected = self.names()->0;
        if names@.len() == expected.len() && forall|i: int|
            0 <= i < names@.len() ==> #[trigger] names@[i]@ == expected[i] {
            assert(names_view(names@) =~= expected);
        }
        if self.accepts(nfields, Some(names)) {
            assert(names_view(names@) == expected);
            assert forall|i: int| 0 <= i < names@.len() implies #[trigger] names@[i]@
                == expected[i] by {
                assert(names_view(names@)[i] == names@[i]@);
            }
        }
    }

    /// A kernel without names joins exactly when it describes the sum's
    /// number of fields.
    pub proof fn law_unnamed_kernel_joins_on_field_count(&self, nfields: usize)
        ensures
            self.accepts(nfields, None) <==> nfields == self.field_count(),
    {
    }

    /// A sum of one kernel over `nfields` fields, named by `names` if given.
    pub fn from_kernel(kernel: K, nfields: usize, names: Option<Vec<String>>) -> (sum: Self)
        requires
            nfields > 0,
            names_fit(names, nfields),
        ensures
            sum.kernels_view() == seq![kernel],
            sum.field_count() == nfields,
            sum.names() == optional_names_view(names),
    {
        let mut kernels: Vec<K> = Vec::new();
        kernels.push(kernel);
        assert(kernels@ =~= seq![kernel]);
        ResidualKernelSum { kernels, nfields, field_names: names }
    }

    /// Decide whether a kernel over `nfields` fields named `names` can join.
    pub fn can_add(&self, nfields: usize, names: &Option<Vec<String>>) -> (accepted: bool)
        ensures
            accepted == self.accepts(nfields, *names),
    {
        proof {
            use_type_invariant(self);
        }
        nfields == self.nfields && names_fit_count(names, nfields) && field_names_agree(
            &self.field_names,
            names,
        )
    }

    /// Add a kernel over the same fields. The sum keeps the names it has, or
    /// takes the new kernel's names when it had none.
    pub fn with(self, kernel: K, nfields: usize, names: Option<Vec<String>>) -> (sum: Self)
        requires
            self.accepts(nfields, names),
        ensures
            sum.kernels_view() == self.kernels_view().push(kernel),
            sum.field_count() == self.field_count(),
            sum.names() == if self.names() is Some {
                self.names()
            } else {
                optional_names_view(names)
            },
    {
        proof {
            use_type_invariant(&self);
        }
        let ResidualKernelSum { mut kernels, nfields: count, field_names } = self;
        kernels.push(kernel);
        let field_names = match field_names {
            Some(existing) => Some(existing),
            None => names,
        };
        ResidualKernelSum { kernels, nfields: count, field_names }
    }

    pub fn nfields(&self) -> (nfields: usize)
        ensures
            nfields == self.field_count(),
            nfields > 0,
    {
        proof {
            use_type_invariant(self);
        }
        self.nfields
    }

    pub fn field_names(&self) -> (names: Option<Vec<String>>)
        ensures
            optional_names_view(names) == self.names(),
    {
        match &self.field_names {
            Some(existing) => Some(copy_names(existing)),
            None => None,
        }
    }

    pub fn kernels(&self) -> (kernels: &Vec<K>)
        ensures
            kernels@ == self.kernels_view(),
    {
        &self.kernels
    }
}

/// Composition of kernels over different named fields.
///
/// The system fields are the union of the kernels' input and output names,
/// each listed once in the order it first appeared. Each kernel keeps an input
/// and an output map from its local field positions to union positions.
pub struct ResidualKernelSet<K> {
    kernels: Vec<K>,
    fields: Vec<String>,
    input_maps: Vec<Vec<usize>>,
    output_maps: Vec<Vec<usize>>,
}

/// Tensor kernel sets share the same field layout.
pub type TensorResidualKernelSet<K> = ResidualKernelSet<K>;

/// Every entry of every map is a position in a field list of length `len`.
pub open spec fn maps_within(maps: Seq<Vec<usize>>, len: nat) -> bool {
    forall|k: int, i: int|
        0 <= k < maps.len() && 0 <= i < maps[k]@.len() ==> #[trigger] maps[k]@[i] < len
}

/// `map` sends each local position to the union position of its name.
pub open spec fn map_names(map: Seq<usize>, fields: Seq<Seq<char>>, names: Seq<Seq<char>>) -> bool {
    &&& map.len() == names.len()
    &&& forall|i: int|
        0 <= i < names.len() ==> #[trigger] map[i] < fields.len() && fields[map[i] as int]
            == names[i]
}

impl<K> ResidualKernelSet<K> {
    #[verifier::type_invariant]
    spec fn inv(self) -> bool {
        &&& self.input_maps@.len() == self.kernels@.len()
        &&& self.output_maps@.len() == self.kernels@.len()
        &&& names_view(self.fields@).no_duplicates()
        &&& maps_within(self.input_maps@, self.fields@.len())
        &&& maps_within(self.output_maps@, self.fields@.len())
    }

    /// The kernels, in the order they were added.
    pub closed spec fn kernels_view(&self) -> Seq<K> {
        self.kernels@
    }

    /// The union field names.
    pub closed spec fn field_list(&self) -> Seq<Seq<char>> {
        names_view(self.fields@)
    }

    /// The input map of the `k`-th kernel.
    pub closed spec fn input_map_of(&self, k: int) -> Seq<usize> {
        self.input_maps@[k]@
    }

    /// The output map of the `k`-th kernel.
    pub closed spec fn output_map_of(&self, k: int) -> Seq<usize> {
        self.output_maps@[k]@
    }

    /// A set of one kernel reading `inputs` and writing `outputs`.
    pub fn from_kernel(kernel: K, inputs: &Vec<String>, outputs: &Vec<String>) -> (set: Self)
        ensures
            set.kernels_view() == seq![kernel],
            set.field_list() == union_names(
                union_names(Seq::empty(), names_view(inputs@)),
                names_view(outputs@),
            ),
            set.field_list().no_duplicates(),
            map_names(set.input_map_of(0), set.field_list(), names_view(inputs@)),
            map_names(set.output_map_of(0), set.field_list(), names_view(outputs@)),
    {
        let mut fields: Vec<String> = Vec::new();
        assert(names_view(fields@) =~= Seq::<Seq<char>>::empty());
        let input_map = union_fields(&mut fields, inputs);
        let ghost middle = fields@;
        let output_map = union_fields(&mut fields, outputs);
        let mut kernels: Vec<K> = Vec::new();
        kernels.push(kernel);
        let mut input_maps: Vec<Vec<usize>> = Vec::new();
        input_maps.push(input_map);
        let mut output_maps: Vec<Vec<usize>> = Vec::new();
        output_maps.push(output_map);
        proof {
            assert(kernels@ =~= seq![kernel]);
            assert forall|i: int| 0 <= i < inputs@.len() implies #[trigger] input_map@[i]
                < fields@.len() && names_view(fields@)[input_map@[i] as int]
                == names_view(inputs@)[i] by {
                assert(fields@[input_map@[i] as int] == middle[input_map@[i] as int]);
            }
            assert forall|i: int| 0 <= i < outputs@.len() implies #[trigger] output_map@[i]
                < fields@.len() && names_view(fields@)[output_map@[i] as int]
                == names_view(outputs@)[i] by {}
        }
        ResidualKernelSet { kernels, fields, input_maps, output_maps }
    }

    /// Add a kernel reading `inputs` and writing `outputs`. Names new to the
    /// set are appended to its fields, inputs first; the maps of the kernels
    /// already in the set do not change.
    pub fn with(self, kernel: K, inputs: &Vec<String>, outputs: &Vec<String>) -> (set: Self)
        ensures
            set.kernels_view() == self.kernels_view().push(kernel),
            set.field_list() == union_names(
                union_names(self.field_list(), names_view(inputs@)),
                names_view(outputs@),
            ),
            set.field_list().no_duplicates(),
            forall|k: int|
                0 <= k < self.kernels_view().len() ==> #[trigger] set.input_map_of(k)
                    == self.input_map_of(k) && set.output_map_of(k) == self.output_map_of(k),
            map_names(
                set.input_map_of(self.kernels_view().len() as int),
                set.field_list(),
                names_view(inputs@),
            ),
            map_names(
                set.output_map_of(self.kernels_view().len() as int),
                set.field_list(),
                names_view(outputs@),
            ),
    {
        proof {
            use_type_invariant(&self);
        }
        let ResidualKernelSet { mut kernels, mut fields, mut input_maps, mut output_maps } = self;
        let ghost start = fields@;
        let input_map = union_fields(&mut fields, inputs);
        let ghost middle = fields@;
        let output_map = union_fields(&mut fields, outputs);
        kernels.push(kernel);
        input_maps.push(input_map);
        output_maps.push(output_map);
        proof {
            let n = self.kernels@.len() as int;
            assert forall|k: int, i: int|
                0 <= k < input_maps@.len() && 0 <= i < input_maps@[k]@.len() implies
                #[trigger] input_maps@[k]@[i] < fields@.len() by {
                if k < n {
                    assert(input_maps@[k] == self.input_maps@[k]);
                }
            }
            assert forall|k: int, i: int|
                0 <= k < output_maps@.len() && 0 <= i < output_maps@[k]@.len() implies
                #[trigger] output_maps@[k]@[i] < fields@.len() by {
                if k < n {
                    assert(output_maps@[k] == self.output_maps@[k]);
                }
            }
            assert forall|i: int| 0 <= i < inputs@.len() implies #[trigger] input_map@[i]
                < fields@.len() && names_view(fields@)[input_map@[i] as int]
                == names_view(inputs@)[i] by {
                assert(fields@[input_map@[i] as int] == middle[input_map@[i] as int]);
            }
            assert forall|i: int| 0 <= i < outputs@.len() implies #[trigger] output_map@[i]
                < fields@.len() && names_view(fields@)[output_map@[i] as int]
                == names_view(outputs@)[i] by {}
            assert(input_maps@[n] == input_map);
            assert(output_maps@[n] == output_map);
        }
        ResidualKernelSet { kernels, fields, input_maps, output_maps }
    }

    /// The number of union fields.
    pub fn nfields(&self) -> (nfields: usize)
        ensures
            nfields == self.field_list().len(),
    {
        self.fields.len()
    }

    /// The union field names.
    pub fn field_names(&self) -> (names: Vec<String>)
        ensures
            names_view(names@) == self.field_list(),
    {
        copy_names(&self.fields)
    }

    pub fn kernels(&self) -> (kernels: &Vec<K>)
        ensures
            kernels@ == self.kernels_view(),
    {
        &self.kernels
    }

    /// Union positions of the `k`-th kernel's input fields.
    pub fn input_map(&self, k: usize) -> (map: &Vec<usize>)
        requires
            k < self.kernels_view().len(),
        ensures
            map@ == self.input_map_of(k as int),
            forall|i: int| 0 <= i < map@.len() ==> #[trigger] map@[i] < self.field_list().len(),
    {
        proof {
            use_type_invariant(self);
        }
        &self.input_maps[k]
    }

    /// Union positions of the `k`-th kernel's output fields.
    pub fn output_map(&self, k: usize) -> (map: &Vec<usize>)
        requires
            k < self.kernels_view().len(),
        ensures
            map@ == self.output_map_of(k as int),
            forall|i: int| 0 <= i < map@.len() ==> #[trigger] map@[i] < self.field_list().len(),
    {
        proof {
            use_type_invariant(self);
        }
        &self.output_maps[k]
    }

    /// Local position of union equation `equation` among the `k`-th kernel's
    /// outputs, or `None` when that kernel does not write it.
    pub fn local_equation(&self, k: usize, equation: usize) -> (local: Option<usize>)
        requires
            k < self.kernels_view().len(),
        ensures
            match local {
                Some(i) => i < self.output_map_of(k as int).len() && self.output_map_of(
                    k as int,
                )[i as int] == equation && forall|j: int|
                    0 <= j < i ==> #[trigger] self.output_map_of(k as int)[j] != equation,
                None => !self.output_map_of(k as int).contains(equation),
            },
    {
        proof {
            use_type_invariant(self);
        }
        local_index(&self.output_maps[k], equation)
    }

    /// Local position of union unknown `unknown` among the `k`-th kernel's
    /// inputs, or `None` when that kernel does not read it.
    pub fn local_unknown(&self, k: usize, unknown: usize) -> (local: Option<usize>)
        requires
            k < self.kernels_view().len(),
        ensures
            match local {
                Some(i) => i < self.input_map_of(k as int).len() && self.input_map_of(
                    k as int,
                )[i as int] == unknown && forall|j: int|
                    0 <= j < i ==> #[trigger] self.input_map_of(k as int)[j] != unknown,
                None => !self.input_map_of(k as int).contains(unknown),
            },
    {
        proof {
            use_type_invariant(self);
        }
        local_index(&self.input_maps[k], unknown)
    }
}

} // verus!
