//! Mesh metadata and physical-region selection.

use vstd::prelude::*;

verus! {

/// A Gmsh-style physical region identifier.
#[derive(Clone, Copy, Debug, PartialEq, Eq, Hash, Structural)]
pub struct PhysicalRegion {
    pub dimension: usize,
    pub tag: usize,
}

/// A numeric or named physical-region selector.
#[derive(Clone, Debug, Eq)]
pub enum PhysicalSelector {
    Tag(usize),
    Name(String),
}

impl PartialEq for PhysicalSelector {
    fn eq(&self, other: &Self) -> (same: bool) {
        match (self, other) {
            (PhysicalSelector::Tag(a), PhysicalSelector::Tag(b)) => *a == *b,
            (PhysicalSelector::Name(a), PhysicalSelector::Name(b)) => String::eq(a, b),
            _ => false,
        }
    }
}

impl vstd::std_specs::cmp::PartialEqSpecImpl for PhysicalSelector {
    open spec fn obeys_eq_spec() -> bool {
        true
    }

    open spec fn eq_spec(&self, other: &Self) -> bool {
        match (self, other) {
            (PhysicalSelector::Tag(a), PhysicalSelector::Tag(b)) => a == b,
            (PhysicalSelector::Name(a), PhysicalSelector::Name(b)) => a@ == b@,
            _ => false,
        }
    }
}

impl From<usize> for PhysicalSelector {
    fn from(tag: usize) -> (selector: Self)
        ensures
            selector == PhysicalSelector::Tag(tag),
    {
        PhysicalSelector::Tag(tag)
    }
}

impl vstd::std_specs::convert::FromSpecImpl<usize> for PhysicalSelector {
    open spec fn obeys_from_spec() -> bool {
        true
    }

    open spec fn from_spec(tag: usize) -> Self {
        PhysicalSelector::Tag(tag)
    }
}

impl<'a> From<&'a str> for PhysicalSelector {
    fn from(name: &'a str) -> (selector: Self)
        ensures
            selector matches PhysicalSelector::Name(n) && n@ == name@,
    {
        PhysicalSelector::Name(name.to_owned())
    }
}

/// A selector built from a string slice owns a fresh `String`, which no spec
/// value can name; the conversion is described by the `ensures` of `from`.
impl<'a> vstd::std_specs::convert::FromSpecImpl<&'a str> for PhysicalSelector {
    open spec fn obeys_from_spec() -> bool {
        false
    }

    open spec fn from_spec(name: &'a str) -> Self {
        vstd::pervasive::arbitrary()
    }
}

impl From<String> for PhysicalSelector {
    fn from(name: String) -> (selector: Self)
        ensures
            selector == PhysicalSelector::Name(name),
    {
        PhysicalSelector::Name(name)
    }
}

impl vstd::std_specs::convert::FromSpecImpl<String> for PhysicalSelector {
    open spec fn obeys_from_spec() -> bool {
        true
    }

    open spec fn from_spec(name: String) -> Self {
        PhysicalSelector::Name(name)
    }
}

/// Metadata for one volume cell.
#[derive(Clone, Copy, Debug, Default)]
pub struct CellMeta {
    pub local_index: usize,
    pub physical_region: Option<PhysicalRegion>,
}

/// Metadata for one boundary facet.
#[derive(Clone, Copy, Debug, Default)]
pub struct FacetMeta {
    pub local_index: usize,
    pub physical_region: Option<PhysicalRegion>,
}

/// The name a list of `(region, name)` entries gives to `region`: the last
/// entry for that region wins, as repeated insertion into a map would leave it.
pub open spec fn name_of(names: Seq<(PhysicalRegion, String)>, region: PhysicalRegion) -> Option<
    Seq<char>,
>
    decreases names.len(),
{
    if names.len() == 0 {
        None
    } else if names.last().0 == region {
        Some(names.last().1@)
    } else {
        name_of(names.drop_last(), region)
    }
}

/// `names` gives `region` the name `name`: some entry for `region` carries
/// `name`, and no later entry is for `region`.
proof fn lemma_name_of_is_last_entry(
    names: Seq<(PhysicalRegion, String)>,
    region: PhysicalRegion,
    name: Seq<char>,
)
    ensures
        name_of(names, region) == Some(name) <==> exists|j: int|
            0 <= j < names.len() && (#[trigger] names[j]).0 == region && names[j].1@ == name
                && forall|later: int|
                0 <= j < later < names.len() ==> (#[trigger] names[later]).0 != region,
    decreases names.len(),
{
    if names.len() > 0 {
        let prefix = names.drop_last();
        let last = names.len() - 1;
        lemma_name_of_is_last_entry(prefix, region, name);
        if names.last().0 == region {
            if name_of(names, region) == Some(name) {
                assert(names[last].0 == region && names[last].1@ == name);
            }
            if exists|j: int|
                0 <= j < names.len() && (#[trigger] names[j]).0 == region && names[j].1@ == name
                    && forall|later: int|
                    0 <= j < later < names.len() ==> (#[trigger] names[later]).0 != region {
                let j = choose|j: int|
                    0 <= j < names.len() && (#[trigger] names[j]).0 == region && names[j].1@
                        == name && forall|later: int|
                        0 <= j < later < names.len() ==> (#[trigger] names[later]).0 != region;
                if j < last {
                    assert(names[last].0 != region);
                }
            }
        } else {
            if name_of(names, region) == Some(name) {
                let j = choose|j: int|
                    0 <= j < prefix.len() && (#[trigger] prefix[j]).0 == region && prefix[j].1@
                        == name && forall|later: int|
                        0 <= j < later < prefix.len() ==> (#[trigger] prefix[later]).0 != region;
                assert(names[j] == prefix[j]);
                assert forall|later: int| 0 <= j < later < names.len() implies (#[trigger] names[
                    later
                ]).0 != region by {
                    if later < last {
                        assert(names[later] == prefix[later]);
                    }
                }
            }
            if exists|j: int|
                0 <= j < names.len() && (#[trigger] names[j]).0 == region && names[j].1@ == name
                    && forall|later: int|
                    0 <= j < later < names.len() ==> (#[trigger] names[later]).0 != region {
                let j = choose|j: int|
                    0 <= j < names.len() && (#[trigger] names[j]).0 == region && names[j].1@
                        == name && forall|later: int|
                        0 <= j < later < names.len() ==> (#[trigger] names[later]).0 != region;
                assert(j < last);
                assert(prefix[j] == names[j]);
                assert forall|later: int| 0 <= j < later < prefix.len() implies (#[trigger] prefix[
                    later
                ]).0 != region by {
                    assert(prefix[later] == names[later]);
                }
            }
        }
    }
}

/// Optional mesh metadata indexed by mesh-local entity index.
///
/// Empty region vectors mean no region metadata. Nonempty vectors must follow
/// the `local_index()` ordering of the corresponding mesh entity type.
/// `physical_names` maps a region to its name; a later entry for the same
/// region replaces an earlier one.
#[derive(Clone, Debug)]
pub struct MeshMetadata {
    pub cell_regions: Vec<Option<PhysicalRegion>>,
    pub facet_regions: Vec<Option<PhysicalRegion>>,
    pub physical_names: Vec<(PhysicalRegion, String)>,
}

impl Default for MeshMetadata {
    fn default() -> (metadata: Self)
        ensures
            metadata.cell_regions@ == Seq::<Option<PhysicalRegion>>::empty(),
            metadata.facet_regions@ == Seq::<Option<PhysicalRegion>>::empty(),
            metadata.physical_names@ == Seq::<(PhysicalRegion, String)>::empty(),
    {
        MeshMetadata { cell_regions: Vec::new(), facet_regions: Vec::new(), physical_names: Vec::new() }
    }
}

impl MeshMetadata {
    /// The physical-name table as a map from region to name.
    pub open spec fn name_of(&self, region: PhysicalRegion) -> Option<Seq<char>> {
        name_of(self.physical_names@, region)
    }

    /// Whether a region is chosen by a selector: a tag selects every region
    /// with that tag, a name selects the regions that carry exactly that name.
    pub open spec fn selects(&self, region: PhysicalRegion, selector: PhysicalSelector) -> bool {
        match selector {
            PhysicalSelector::Tag(tag) => region.tag == tag,
            PhysicalSelector::Name(name) => self.name_of(region) == Some(name@),
        }
    }

    /// Whether entity `index` of `regions` carries a region chosen by `selector`.
    pub open spec fn entity_selected(
        &self,
        regions: Seq<Option<PhysicalRegion>>,
        selector: PhysicalSelector,
        index: int,
    ) -> bool {
        &&& 0 <= index < regions.len()
        &&& regions[index] matches Some(region)
        &&& self.selects(region, selector)
    }

    /// `indices` lists, in increasing order and each once, exactly the
    /// entities of `regions` that `selector` chooses.
    pub open spec fn is_selection(
        &self,
        regions: Seq<Option<PhysicalRegion>>,
        selector: PhysicalSelector,
        indices: Seq<usize>,
    ) -> bool {
        &&& forall|i: int, j: int| 0 <= i < j < indices.len() ==> indices[i] < indices[j]
        &&& forall|k: usize| #![trigger indices.contains(k)]
            k < regions.len() ==> (indices.contains(k) <==> self.entity_selected(
                regions,
                selector,
                k as int,
            ))
        &&& forall|i: int| 0 <= i < indices.len() ==> indices[i] < regions.len()
    }

    /// Whether the region vectors are empty or match the mesh entity counts.
    pub open spec fn fits(&self, cell_count: usize, facet_count: usize) -> bool {
        &&& self.cell_regions@.len() == 0 || self.cell_regions@.len() == cell_count
        &&& self.facet_regions@.len() == 0 || self.facet_regions@.len() == facet_count
    }

    /// Check the metadata against the mesh entity counts; a mismatch is a
    /// caller error, so the counts must agree.
    pub fn validate(&self, cell_count: usize, facet_count: usize)
        requires
            self.fits(cell_count, facet_count),
    {
    }

    /// Look up the name of a region in the physical-name table.
    pub fn physical_name(&self, region: PhysicalRegion) -> (name: Option<&String>)
        ensures
            match name {
                Some(n) => self.name_of(region) == Some(n@),
                None => self.name_of(region) is None,
            },
    {
        let mut i = self.physical_names.len();
        assert(self.physical_names@.take(i as int) =~= self.physical_names@);
        while i > 0
            invariant
                i <= self.physical_names@.len(),
                name_of(self.physical_names@.take(i as int), region) == self.name_of(region),
            decreases i,
        {
            assert(self.physical_names@.take(i as int).drop_last() =~= self.physical_names@.take(
                i - 1,
            ));
            if self.physical_names[i - 1].0 == region {
                return Some(&self.physical_names[i - 1].1);
            }
            i = i - 1;
        }
        None
    }

    fn selected(&self, region: PhysicalRegion, selector: &PhysicalSelector) -> (chosen: bool)
        ensures
            chosen == self.selects(region, *selector),
    {
        match selector {
            PhysicalSelector::Tag(tag) => region.tag == *tag,
            PhysicalSelector::Name(name) => match self.physical_name(region) {
                Some(physical_name) => String::eq(physical_name, name),
                None => false,
            },
        }
    }

    fn indices(
        &self,
        regions: &Vec<Option<PhysicalRegion>>,
        selector: PhysicalSelector,
    ) -> (indices: Vec<usize>)
        ensures
            self.is_selection(regions@, selector, indices@),
    {
        let mut indices: Vec<usize> = Vec::new();
        let mut index: usize = 0;
        while index < regions.len()
            invariant
                index <= regions@.len(),
                forall|i: int, j: int| 0 <= i < j < indices@.len() ==> indices@[i] < indices@[j],
                forall|i: int| 0 <= i < indices@.len() ==> indices@[i] < index,
                forall|k: usize| #![trigger indices@.contains(k)]
                    k < index ==> (indices@.contains(k) <==> self.entity_selected(
                        regions@,
                        selector,
                        k as int,
                    )),
            decreases regions@.len() - index,
        {
            let chosen = match regions[index] {
                Some(region) => self.selected(region, &selector),
                None => false,
            };
            let ghost before = indices@;
            if chosen {
                indices.push(index);
            }
            proof {
                assert forall|k: usize| #![trigger indices@.contains(k)]
                    k < index + 1 implies (indices@.contains(k)
                    <==> self.entity_selected(regions@, selector, k as int)) by {
                    if k < index {
                        if indices@.contains(k) && !before.contains(k) {
                            assert(indices@.last() == index);
                        }
                        if before.contains(k) {
                            let w = choose|w: int| 0 <= w < before.len() && before[w] == k;
                            assert(indices@[w] == k);
                        }
                    } else if chosen {
                        assert(indices@[indices@.len() - 1] == index);
                    } else {
                        if indices@.contains(k) {
                            let w = choose|w: int|
                                0 <= w < indices@.len() && indices@[w] == k;
                            assert(before[w] < index);
                        }
                    }
                }
            }
            index = index + 1;
        }
        indices
    }

    /// A tag selector chooses exactly the entities whose region carries that
    /// tag, whatever the region's dimension, listed once each in increasing
    /// order; entities without a region are never chosen.
    pub proof fn law_tag_selection(
        &self,
        regions: Seq<Option<PhysicalRegion>>,
        tag: usize,
        indices: Seq<usize>,
    )
        requires
            self.is_selection(regions, PhysicalSelector::Tag(tag), indices),
        ensures
            forall|i: int, j: int|
                0 <= i < j < indices.len() ==> #[trigger] indices[i] < #[trigger] indices[j],
            forall|i: int| 0 <= i < indices.len() ==> #[trigger] indices[i] < regions.len(),
            forall|k: usize|
                k < regions.len() ==> (#[trigger] indices.contains(k) <==> (regions[k as int] is Some
                    && regions[k as int]->0.tag == tag)),
    {
    }

    /// A name selector chooses exactly the entities whose region is given
    /// precisely that name by the physical-name table (its last entry for the
    /// region); a region whose name merely starts with it, or that has no
    /// name, is never chosen. The chosen entities are listed once each in
    /// increasing order.
    pub proof fn law_name_selection(
        &self,
        regions: Seq<Option<PhysicalRegion>>,
        name: String,
        indices: Seq<usize>,
    )
        requires
            self.is_selection(regions, PhysicalSelector::Name(name), indices),
        ensures
            forall|i: int, j: int|
                0 <= i < j < indices.len() ==> #[trigger] indices[i] < #[trigger] indices[j],
            forall|i: int| 0 <= i < indices.len() ==> #[trigger] indices[i] < regions.len(),
            forall|k: usize|
                k < regions.len() ==> (#[trigger] indices.contains(k) <==> (regions[k as int] is Some
                    && exists|j: int|
                    0 <= j < self.physical_names@.len() && (#[trigger] self.physical_names@[j]).0
                        == regions[k as int]->0 && self.physical_names@[j].1@ == name@
                        && forall|later: int|
                        0 <= j < later < self.physical_names@.len()
                            ==> (#[trigger] self.physical_names@[later]).0
                            != regions[k as int]->0)),
    {
        assert forall|k: usize| k < regions.len() implies (#[trigger] indices.contains(k) <==> (
        regions[k as int] is Some && exists|j: int|
            0 <= j < self.physical_names@.len() && (#[trigger] self.physical_names@[j]).0
                == regions[k as int]->0 && self.physical_names@[j].1@ == name@ && forall|later: int|
                0 <= j < later < self.physical_names@.len()
                    ==> (#[trigger] self.physical_names@[later]).0 != regions[k as int]->0)) by {
            if regions[k as int] is Some {
                lemma_name_of_is_last_entry(self.physical_names@, regions[k as int]->0, name@);
            }
        }
    }

    /// Return boundary facet indices selected by a physical tag or name.
    ///
    /// Numeric selection is scoped to the facet metadata, while named
    /// selection uses the dimension-aware physical-name table.
    pub fn boundary_facets<S: Into<PhysicalSelector>>(&self, selector: S) -> (facets: Vec<usize>)
        ensures
            exists|chosen: PhysicalSelector|
                call_ensures(S::into, (selector,), chosen) && self.is_selection(
                    self.facet_regions@,
                    chosen,
                    facets@,
                ),
    {
        let chosen = selector.into();
        self.indices(&self.facet_regions, chosen)
    }

    /// Return cell indices selected by a physical tag or name.
    pub fn cell_indices<S: Into<PhysicalSelector>>(&self, selector: S) -> (cells: Vec<usize>)
        ensures
            exists|chosen: PhysicalSelector|
                call_ensures(S::into, (selector,), chosen) && self.is_selection(
                    self.cell_regions@,
                    chosen,
                    cells@,
                ),
    {
        let chosen = selector.into();
        self.indices(&self.cell_regions, chosen)
    }

    /// The region recorded for entity `index`, absent beyond the metadata.
    pub open spec fn region_at(regions: Seq<Option<PhysicalRegion>>, index: usize) -> Option<
        PhysicalRegion,
    > {
        if index < regions.len() {
            regions[index as int]
        } else {
            None
        }
    }

    pub fn cell(&self, index: usize) -> (meta: CellMeta)
        ensures
            meta.local_index == index,
            meta.physical_region == Self::region_at(self.cell_regions@, index),
    {
        CellMeta {
            local_index: index,
            physical_region: if index < self.cell_regions.len() {
                self.cell_regions[index]
            } else {
                None
            },
        }
    }

    pub fn facet(&self, index: usize) -> (meta: FacetMeta)
        ensures
            meta.local_index == index,
            meta.physical_region == Self::region_at(self.facet_regions@, index),
    {
        FacetMeta {
            local_index: index,
            physical_region: if index < self.facet_regions.len() {
                self.facet_regions[index]
            } else {
                None
            },
        }
    }
}

} // verus!
