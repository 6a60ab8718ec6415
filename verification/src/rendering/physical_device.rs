//! The physical device that renders, as far as the renderer reads it.

use vstd::prelude::*;
use crate::table::{increasing, Table};

verus! {

/// `vulkano::format::Format`, the format of the pixels of a surface. Opaque:
/// it is only handed on.
#[verifier::external_type_specification]
#[verifier::external_body]
pub struct ExFormat(vulkano::format::Format);

/// `vulkano::swapchain::ColorSpace`, the color space of a surface. Opaque: it
/// is only handed on.
#[verifier::external_type_specification]
#[verifier::external_body]
pub struct ExColorSpace(vulkano::swapchain::ColorSpace);

/// Enumeration of queue family types
#[derive(Clone, Copy, Debug, PartialEq, Eq, PartialOrd, Ord, Structural)]
pub enum QueueFamilyType {
    /// Graphics queue family
    Graphics,
    /// Present queue family
    Present,
}

impl QueueFamilyType {
    /// The place of the type in the order of types.
    pub open spec fn spec_ordinal(self) -> usize {
        match self {
            QueueFamilyType::Graphics => 0,
            QueueFamilyType::Present => 1,
        }
    }

    /// The place of the type in the order of types
    #[verifier::when_used_as_spec(spec_ordinal)]
    pub fn ordinal(self) -> (ordinal: usize)
        ensures
            ordinal == self.spec_ordinal(),
    {
        match self {
            QueueFamilyType::Graphics => 0,
            QueueFamilyType::Present => 1,
        }
    }

    /// The type at a place in the order of types.
    pub open spec fn spec_from_ordinal(ordinal: usize) -> Option<QueueFamilyType> {
        if ordinal == 0 {
            Some(QueueFamilyType::Graphics)
        } else if ordinal == 1 {
            Some(QueueFamilyType::Present)
        } else {
            None
        }
    }

    /// The type at a place in the order of types
    #[verifier::when_used_as_spec(spec_from_ordinal)]
    pub fn from_ordinal(ordinal: usize) -> (family: Option<QueueFamilyType>)
        ensures
            family == Self::spec_from_ordinal(ordinal),
    {
        if ordinal == 0 {
            Some(QueueFamilyType::Graphics)
        } else if ordinal == 1 {
            Some(QueueFamilyType::Present)
        } else {
            None
        }
    }
}

/// The place of the first family, in the order of types, whose index is
/// `index`.
pub open spec fn first_family(families: Seq<(usize, u32)>, index: u32, from: int) -> Option<int>
    decreases families.len() - from,
{
    if from < 0 || from >= families.len() {
        None
    } else if families[from].1 == index {
        Some(from)
    } else {
        first_family(families, index, from + 1)
    }
}

/// The index of the first queue family at or behind `from` that can do what
/// `wanted` asks for. A family is given by whether it takes graphics commands
/// and whether it can present to the surface.
pub open spec fn first_capable(
    families: Seq<(bool, bool)>,
    wanted: QueueFamilyType,
    from: int,
) -> Option<int>
    decreases families.len() - from,
{
    if from < 0 || from >= families.len() {
        None
    } else if capable(families[from], wanted) {
        Some(from)
    } else {
        first_capable(families, wanted, from + 1)
    }
}

/// The family can do what `wanted` asks for.
pub open spec fn capable(family: (bool, bool), wanted: QueueFamilyType) -> bool {
    match wanted {
        QueueFamilyType::Graphics => family.0,
        QueueFamilyType::Present => family.1,
    }
}

/// Finds the first queue family that can do what `wanted` asks for
pub fn find_queue_family(families: &Vec<(bool, bool)>, wanted: QueueFamilyType) -> (index: Option<
    u32,
>)
    requires
        families@.len() <= u32::MAX,
    ensures
        match first_capable(families@, wanted, 0) {
            Some(at) => index == Some(at as u32),
            None => index is None,
        },
{
    let mut at: usize = 0;
    while at < families.len()
        invariant
            at <= families@.len(),
            families@.len() <= u32::MAX,
            first_capable(families@, wanted, 0) == first_capable(families@, wanted, at as int),
        decreases families@.len() - at,
    {
        let family = families[at];
        let found = match wanted {
            QueueFamilyType::Graphics => family.0,
            QueueFamilyType::Present => family.1,
        };
        if found {
            return Some(at as u32);
        }
        at += 1;
    }
    None
}

/// Picks the queue family of every type: the first family that can do what
/// the type asks for. A device that lacks a family for some type is of no use
pub fn select_queue_families(families: &Vec<(bool, bool)>) -> (selected: Option<Table<u32>>)
    requires
        families@.len() <= u32::MAX,
    ensures
        match (
            first_capable(families@, QueueFamilyType::Graphics, 0),
            first_capable(families@, QueueFamilyType::Present, 0),
        ) {
            (Some(graphics), Some(present)) => selected matches Some(table) && table.wf()
                && table@ == seq![(0usize, graphics as u32), (1usize, present as u32)],
            _ => selected is None,
        },
{
    match find_queue_family(families, QueueFamilyType::Graphics) {
        Some(graphics) => match find_queue_family(families, QueueFamilyType::Present) {
            Some(present) => {
                let mut table: Table<u32> = Table::new();
                table.append(QueueFamilyType::Graphics.ordinal(), graphics);
                table.append(QueueFamilyType::Present.ordinal(), present);
                assert(table@ =~= seq![(0usize, graphics), (1usize, present)]);
                Some(table)
            },
            None => None,
        },
        None => None,
    }
}

/// The number of images that a swapchain asks for: one more than the least
/// that the surface takes, but no more than the most it takes, where it
/// names a most.
pub open spec fn image_count(min_image_count: u32, max_image_count: Option<u32>) -> int {
    match max_image_count {
        Some(max_image_count) => if min_image_count + 1 <= max_image_count {
            min_image_count + 1
        } else {
            max_image_count as int
        },
        None => min_image_count + 1,
    }
}

/// Computes the number of images that a swapchain asks for
pub fn surface_image_count(min_image_count: u32, max_image_count: Option<u32>) -> (count: u32)
    requires
        min_image_count < u32::MAX,
        max_image_count matches Some(max_image_count) ==> min_image_count <= max_image_count,
    ensures
        count == image_count(min_image_count, max_image_count),
{
    match max_image_count {
        Some(max_image_count) => {
            if min_image_count + 1 <= max_image_count {
                min_image_count + 1
            } else {
                max_image_count
            }
        },
        None => min_image_count + 1,
    }
}

/// The kinds of physical devices, from the one that is picked first
#[derive(Clone, Copy, Debug, PartialEq, Eq, Structural)]
pub enum DeviceKind {
    /// A discrete GPU
    DiscreteGpu,
    /// A virtual GPU
    VirtualGpu,
    /// An integrated GPU
    IntegratedGpu,
    /// A CPU
    Cpu,
    /// Something else
    Other,
}

impl DeviceKind {
    /// How late a device of this kind is picked: a device of a lower rank is
    /// picked before one of a higher rank.
    pub open spec fn spec_rank(self) -> u8 {
        match self {
            DeviceKind::DiscreteGpu => 0,
            DeviceKind::VirtualGpu => 1,
            DeviceKind::IntegratedGpu => 2,
            DeviceKind::Cpu => 3,
            DeviceKind::Other => 99,
        }
    }

    /// How late a device of this kind is picked
    #[verifier::when_used_as_spec(spec_rank)]
    pub fn rank(self) -> (rank: u8)
        ensures
            rank == self.spec_rank(),
    {
        match self {
            DeviceKind::DiscreteGpu => 0,
            DeviceKind::VirtualGpu => 1,
            DeviceKind::IntegratedGpu => 2,
            DeviceKind::Cpu => 3,
            DeviceKind::Other => 99,
        }
    }
}

/// Picks the device to render with: the first of those with the lowest rank.
/// Returns its place among the candidates, or nothing where there is none
pub fn select_device(kinds: &Vec<DeviceKind>) -> (selected: Option<usize>)
    ensures
        match selected {
            Some(at) => {
                &&& at < kinds@.len()
                &&& forall|k: int| 0 <= k < kinds@.len() ==> kinds@[at as int].spec_rank() <= (
                #[trigger] kinds@[k]).spec_rank()
                &&& forall|k: int| 0 <= k < at ==> kinds@[at as int].spec_rank() < (
                #[trigger] kinds@[k]).spec_rank()
            },
            None => kinds@.len() == 0,
        },
{
    if kinds.len() == 0 {
        return None;
    }
    let mut best: usize = 0;
    let mut at: usize = 1;
    while at < kinds.len()
        invariant
            1 <= at <= kinds@.len(),
            best < at,
            forall|k: int| 0 <= k < at ==> kinds@[best as int].spec_rank() <= (
            #[trigger] kinds@[k]).spec_rank(),
            forall|k: int| 0 <= k < best ==> kinds@[best as int].spec_rank() < (
            #[trigger] kinds@[k]).spec_rank(),
        decreases kinds@.len() - at,
    {
        if kinds[at].rank() < kinds[best].rank() {
            best = at;
        }
        at += 1;
    }
    Some(best)
}

/// The indices of the queue families, each once and in rising order.
pub open spec fn distinct_indices(indices: Seq<u32>, families: Seq<(usize, u32)>) -> bool {
    &&& forall|i: int, j: int| 0 <= i < j < indices.len() ==> indices[i] < indices[j]
    &&& forall|index: u32| #[trigger]
        indices.contains(index) <==> exists|k: int|
            0 <= k < families.len() && (#[trigger] families[k]).1 == index
}

/// Lists the indices of the queue families that a logical device is created
/// with: the index of every type's family, each once
pub fn queue_family_indices(families: &Table<u32>) -> (indices: Vec<u32>)
    ensures
        distinct_indices(indices@, families@),
{
    let mut indices: Vec<u32> = Vec::new();
    let mut at: usize = 0;
    while at < families.len()
        invariant
            at <= families@.len(),
            forall|i: int, j: int| 0 <= i < j < indices@.len() ==> indices@[i] < indices@[j],
            forall|index: u32| #[trigger]
                indices@.contains(index) <==> exists|k: int|
                    0 <= k < at && (#[trigger] families@[k]).1 == index,
        decreases families@.len() - at,
    {
        let (_, index) = families.entry(at);
        let index = *index;
        let ghost before = indices@;
        let mut place: usize = 0;
        while place < indices.len() && indices[place] < index
            invariant
                place <= indices@.len(),
                indices@ == before,
                forall|k: int| 0 <= k < place ==> indices@[k] < index,
            decreases indices@.len() - place,
        {
            place += 1;
        }
        let present = place < indices.len() && indices[place] == index;
        if !present {
            indices.insert(place, index);
        }
        proof {
            let now = indices@;
            assert forall|i: int, j: int| 0 <= i < j < now.len() implies now[i] < now[j] by {
                if !present {
                    let from = |k: int| if k < place { k } else { k - 1 };
                    if i != place && j != place {
                        assert(now[i] == before[from(i)] && now[j] == before[from(j)]);
                    } else if i == place {
                        assert(now[j] == before[j - 1]);
                        assert(before[place as int] <= before[j - 1]);
                    } else {
                        assert(now[i] == before[i]);
                    }
                }
            }
            assert forall|wanted: u32| #[trigger]
                now.contains(wanted) <==> exists|k: int|
                    0 <= k < at + 1 && (#[trigger] families@[k]).1 == wanted by {
                if now.contains(wanted) {
                    let n = choose|n: int| 0 <= n < now.len() && now[n] == wanted;
                    if present || n != place {
                        let back = if present || n < place { n } else { n - 1 };
                        assert(before[back] == wanted);
                        assert(before.contains(wanted));
                        let k = choose|k: int| 0 <= k < at && (#[trigger] families@[k]).1 == wanted;
                        assert(families@[k].1 == wanted);
                    } else {
                        assert(families@[at as int].1 == wanted);
                    }
                }
                if exists|k: int| 0 <= k < at + 1 && (#[trigger] families@[k]).1 == wanted {
                    let k = choose|k: int| 0 <= k < at + 1 && (#[trigger] families@[k]).1 == wanted;
                    if k < at {
                        assert(before.contains(wanted));
                        let n = choose|n: int| 0 <= n < before.len() && before[n] == wanted;
                        let moved = if present || n < place { n } else { n + 1 };
                        assert(now[moved] == wanted);
                    } else {
                        assert(now[place as int] == wanted);
                    }
                }
            }
        }
        at += 1;
    }
    indices
}

/// Vulkan physical device, with the handle by which the backend reaches it
pub struct PhysicalDevice<H> {
    /// The device itself
    pub handle: H,
    /// The kind of the device
    pub device_type: DeviceKind,
    /// The index of the queue family of every type, under the place of the
    /// type in the order of types
    pub queue_families: Table<u32>,
    /// The format of the surface
    pub surface_format: vulkano::format::Format,
    /// The color space of the surface
    pub surface_color_space: vulkano::swapchain::ColorSpace,
    /// The number of images of the swapchain
    pub surface_image_count: u32,
}

impl<H> PhysicalDevice<H> {
    /// The kind of the device
    pub fn kind(&self) -> (kind: DeviceKind)
        ensures
            kind == self.device_type,
    {
        self.device_type
    }

    /// The queue families stand in the order of their types, and every one
    /// stands under a type.
    pub open spec fn wf(&self) -> bool {
        &&& increasing(self.queue_families@)
        &&& forall|at: int|
            0 <= at < self.queue_families@.len() ==> QueueFamilyType::spec_from_ordinal(
                (#[trigger] self.queue_families@[at]).0,
            ) is Some
    }

    /// Gets queue family type by index: the first type, in the order of
    /// types, whose queue family has the index
    pub fn get_queue_family_type(&self, index: u32) -> (family: Option<QueueFamilyType>)
        requires
            self.wf(),
        ensures
            match first_family(self.queue_families@, index, 0) {
                Some(at) => family == QueueFamilyType::spec_from_ordinal(
                    self.queue_families@[at].0,
                ) && family is Some,
                None => family is None,
            },
    {
        let mut at: usize = 0;
        while at < self.queue_families.len()
            invariant
                at <= self.queue_families@.len(),
                self.wf(),
                first_family(self.queue_families@, index, 0) == first_family(
                    self.queue_families@,
                    index,
                    at as int,
                ),
            decreases self.queue_families@.len() - at,
        {
            let (ordinal, family_index) = self.queue_families.entry(at);
            if *family_index == index {
                return QueueFamilyType::from_ordinal(ordinal);
            }
            at += 1;
        }
        None
    }
}

} // verus!
