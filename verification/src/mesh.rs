//! Vertex buffer layouts and index lists of meshes.

use vstd::prelude::*;

verus! {

pub const INDEX_BUFFER_ASSET_INDEX: u64 = 0;

pub const VERTEX_ATTRIBUTE_BUFFER_ID: u64 = 10;

/// The format of one vertex attribute: a lane type and a lane count.
#[derive(Debug, Copy, Clone, PartialEq, Eq, Hash, Structural)]
pub enum VertexFormat {
    Uint8x2,
    Uint8x4,
    Sint8x2,
    Sint8x4,
    Unorm8x2,
    Unorm8x4,
    Snorm8x2,
    Snorm8x4,
    Uint16x2,
    Uint16x4,
    Sint16x2,
    Sint16x4,
    Unorm16x2,
    Unorm16x4,
    Snorm16x2,
    Snorm16x4,
    Float16x2,
    Float16x4,
    Float32,
    Float32x2,
    Float32x3,
    Float32x4,
    Uint32,
    Uint32x2,
    Uint32x3,
    Uint32x4,
    Sint32,
    Sint32x2,
    Sint32x3,
    Sint32x4,
    Float64,
    Float64x2,
    Float64x3,
    Float64x4,
}

/// Whether a vertex buffer advances once per vertex or once per instance.
#[derive(Debug, Copy, Clone, PartialEq, Eq, Hash, Structural)]
pub enum VertexStepMode {
    Vertex,
    Instance,
}

/// One attribute of a vertex buffer: its format, its byte offset in a
/// vertex and the shader location it is bound to.
#[derive(Debug, Copy, Clone, PartialEq, Eq, Hash, Structural)]
pub struct VertexAttribute {
    pub format: VertexFormat,
    pub offset: u64,
    pub shader_location: u32,
}

/// The layout of a vertex buffer.
#[derive(Debug, Clone, PartialEq, Eq, Hash)]
pub struct VertexBufferLayout {
    /// The distance in bytes between two vertices.
    pub array_stride: u64,
    pub step_mode: VertexStepMode,
    pub attributes: Vec<VertexAttribute>,
}

/// The number of bytes of one lane of `format`.
pub open spec fn lane_bytes(format: VertexFormat) -> nat {
    match format {
        VertexFormat::Uint8x2
        | VertexFormat::Uint8x4
        | VertexFormat::Sint8x2
        | VertexFormat::Sint8x4
        | VertexFormat::Unorm8x2
        | VertexFormat::Unorm8x4
        | VertexFormat::Snorm8x2
        | VertexFormat::Snorm8x4 => 1,
        VertexFormat::Uint16x2
        | VertexFormat::Uint16x4
        | VertexFormat::Sint16x2
        | VertexFormat::Sint16x4
        | VertexFormat::Unorm16x2
        | VertexFormat::Unorm16x4
        | VertexFormat::Snorm16x2
        | VertexFormat::Snorm16x4
        | VertexFormat::Float16x2
        | VertexFormat::Float16x4 => 2,
        VertexFormat::Float32
        | VertexFormat::Float32x2
        | VertexFormat::Float32x3
        | VertexFormat::Float32x4
        | VertexFormat::Uint32
        | VertexFormat::Uint32x2
        | VertexFormat::Uint32x3
        | VertexFormat::Uint32x4
        | VertexFormat::Sint32
        | VertexFormat::Sint32x2
        | VertexFormat::Sint32x3
        | VertexFormat::Sint32x4 => 4,
        VertexFormat::Float64
        | VertexFormat::Float64x2
        | VertexFormat::Float64x3
        | VertexFormat::Float64x4 => 8,
    }
}

/// The number of lanes of `format`.
pub open spec fn lane_count(format: VertexFormat) -> nat {
    match format {
        VertexFormat::Float32 | VertexFormat::Uint32 | VertexFormat::Sint32 | VertexFormat::Float64 => 1,
        VertexFormat::Uint8x2
        | VertexFormat::Sint8x2
        | VertexFormat::Unorm8x2
        | VertexFormat::Snorm8x2
        | VertexFormat::Uint16x2
        | VertexFormat::Sint16x2
        | VertexFormat::Unorm16x2
        | VertexFormat::Snorm16x2
        | VertexFormat::Float16x2
        | VertexFormat::Float32x2
        | VertexFormat::Uint32x2
        | VertexFormat::Sint32x2
        | VertexFormat::Float64x2 => 2,
        VertexFormat::Float32x3
        | VertexFormat::Uint32x3
        | VertexFormat::Sint32x3
        | VertexFormat::Float64x3 => 3,
        VertexFormat::Uint8x4
        | VertexFormat::Sint8x4
        | VertexFormat::Unorm8x4
        | VertexFormat::Snorm8x4
        | VertexFormat::Uint16x4
        | VertexFormat::Sint16x4
        | VertexFormat::Unorm16x4
        | VertexFormat::Snorm16x4
        | VertexFormat::Float16x4
        | VertexFormat::Float32x4
        | VertexFormat::Uint32x4
        | VertexFormat::Sint32x4
        | VertexFormat::Float64x4 => 4,
    }
}

/// The size in bytes of one value of `format`.
pub open spec fn format_size(format: VertexFormat) -> nat {
    lane_bytes(format) * lane_count(format)
}

/// A value takes between 2 and 32 bytes.
pub proof fn lemma_format_size_bounds(format: VertexFormat)
    ensures
        2 <= format_size(format) <= 32,
{
}

/// Types that know the size in bytes of the value they describe.
pub trait VertexFormatSize {
    /// The size in bytes, as a specification.
    spec fn size(self) -> nat;

    fn get_size(self) -> (size: u64)
        ensures
            size == self.size(),
    ;
}

impl VertexFormatSize for VertexFormat {
    open spec fn size(self) -> nat {
        format_size(self)
    }

    fn get_size(self) -> (size: u64) {
        match self {
            VertexFormat::Uint8x2 => 2,
            VertexFormat::Uint8x4 => 4,
            VertexFormat::Sint8x2 => 2,
            VertexFormat::Sint8x4 => 4,
            VertexFormat::Unorm8x2 => 2,
            VertexFormat::Unorm8x4 => 4,
            VertexFormat::Snorm8x2 => 2,
            VertexFormat::Snorm8x4 => 4,
            VertexFormat::Uint16x2 => 2 * 2,
            VertexFormat::Uint16x4 => 2 * 4,
            VertexFormat::Sint16x2 => 2 * 2,
            VertexFormat::Sint16x4 => 2 * 4,
            VertexFormat::Unorm16x2 => 2 * 2,
            VertexFormat::Unorm16x4 => 2 * 4,
            VertexFormat::Snorm16x2 => 2 * 2,
            VertexFormat::Snorm16x4 => 2 * 4,
            VertexFormat::Float16x2 => 2 * 2,
            VertexFormat::Float16x4 => 2 * 4,
            VertexFormat::Float32 => 4,
            VertexFormat::Float32x2 => 4 * 2,
            VertexFormat::Float32x3 => 4 * 3,
            VertexFormat::Float32x4 => 4 * 4,
            VertexFormat::Uint32 => 4,
            VertexFormat::Uint32x2 => 4 * 2,
            VertexFormat::Uint32x3 => 4 * 3,
            VertexFormat::Uint32x4 => 4 * 4,
            VertexFormat::Sint32 => 4,
            VertexFormat::Sint32x2 => 4 * 2,
            VertexFormat::Sint32x3 => 4 * 3,
            VertexFormat::Sint32x4 => 4 * 4,
            VertexFormat::Float64 => 8,
            VertexFormat::Float64x2 => 8 * 2,
            VertexFormat::Float64x3 => 8 * 3,
            VertexFormat::Float64x4 => 8 * 4,
        }
    }
}

/// The unique id of a vertex attribute. It also decides the order of the
/// attributes in a vertex buffer.
#[derive(Debug, Copy, Clone, PartialEq, Eq, PartialOrd, Ord, Hash, Structural)]
pub struct MeshVertexAttributeId(pub usize);

impl From<MeshVertexAttribute> for MeshVertexAttributeId {
    fn from(attribute: MeshVertexAttribute) -> (id: Self) {
        attribute.id
    }
}

impl vstd::std_specs::convert::FromSpecImpl<MeshVertexAttribute> for MeshVertexAttributeId {
    open spec fn obeys_from_spec() -> bool {
        true
    }

    open spec fn from_spec(attribute: MeshVertexAttribute) -> Self {
        attribute.id
    }
}

/// A vertex attribute of a mesh.
#[derive(Debug, Copy, Clone)]
pub struct MeshVertexAttribute {
    /// The friendly name of the vertex attribute.
    pub name: &'static str,
    /// The unique id of the vertex attribute.
    pub id: MeshVertexAttributeId,
    /// The format of the vertex attribute.
    pub format: VertexFormat,
}

impl MeshVertexAttribute {
    pub fn new(name: &'static str, id: usize, format: VertexFormat) -> (a: Self)
        ensures
            a.name == name,
            a.id == MeshVertexAttributeId(id),
            a.format == format,
    {
        Self { name, id: MeshVertexAttributeId(id), format }
    }

    /// The descriptor that binds this attribute to `shader_location`.
    pub fn at_shader_location(&self, shader_location: u32) -> (d: VertexAttributeDescriptor)
        ensures
            d.shader_location == shader_location,
            d.id == self.id,
            d.name == self.name,
    {
        VertexAttributeDescriptor::new(shader_location, self.id, self.name)
    }
}

/// Reports that a mesh lacks an attribute that a pipeline asked for.
#[derive(Debug, Copy, Clone)]
pub struct MissingVertexAttributeError {
    pub pipeline_type: Option<&'static str>,
    pub id: MeshVertexAttributeId,
    pub name: &'static str,
}


/// A request for one vertex attribute at one shader location.
#[derive(Debug, Copy, Clone)]
pub struct VertexAttributeDescriptor {
    pub shader_location: u32,
    pub id: MeshVertexAttributeId,
    pub name: &'static str,
}

impl VertexAttributeDescriptor {
    pub fn new(shader_location: u32, id: MeshVertexAttributeId, name: &'static str) -> (d: Self)
        ensures
            d.shader_location == shader_location,
            d.id == id,
            d.name == name,
    {
        Self { shader_location, id, name }
    }
}

/// The position of the first occurrence of `id` in `ids`, or `ids.len()`
/// if there is none.
pub open spec fn first_position(ids: Seq<MeshVertexAttributeId>, id: MeshVertexAttributeId) -> int
    decreases ids.len(),
{
    if ids.len() == 0 {
        0
    } else if ids[0] == id {
        0
    } else {
        1 + first_position(ids.drop_first(), id)
    }
}

/// `first_position` is the position of the first occurrence.
pub proof fn lemma_first_position(ids: Seq<MeshVertexAttributeId>, id: MeshVertexAttributeId)
    ensures
        0 <= first_position(ids, id) <= ids.len(),
        first_position(ids, id) < ids.len() <==> ids.contains(id),
        first_position(ids, id) < ids.len() ==> ids[first_position(ids, id)] == id,
        forall|i: int| 0 <= i < first_position(ids, id) ==> ids[i] != id,
    decreases ids.len(),
{
    if ids.len() > 0 && ids[0] != id {
        let rest = ids.drop_first();
        lemma_first_position(rest, id);
        assert forall|i: int| 0 <= i < first_position(ids, id) implies ids[i] != id by {
            if i > 0 {
                assert(rest[i - 1] == ids[i]);
            }
        }
        if ids.contains(id) {
            let i = choose|i: int| 0 <= i < ids.len() && ids[i] == id;
            assert(rest[i - 1] == id);
        }
        if rest.contains(id) {
            let i = choose|i: int| 0 <= i < rest.len() && rest[i] == id;
            assert(ids[i + 1] == id);
        }
    } else if ids.len() > 0 {
        assert(ids[0] == id);
    }
}

/// The attributes of a mesh's vertex buffer, with the id of each.
#[derive(Debug, Hash, Eq, PartialEq)]
pub struct InnerMeshVertexBufferLayout {
    attribute_ids: Vec<MeshVertexAttributeId>,
    layout: VertexBufferLayout,
}

impl InnerMeshVertexBufferLayout {
    /// There is one id for each attribute of the layout.
    #[verifier::type_invariant]
    spec fn inv(self) -> bool {
        self.attribute_ids@.len() == self.layout.attributes@.len()
    }

    pub closed spec fn ids(&self) -> Seq<MeshVertexAttributeId> {
        self.attribute_ids@
    }

    pub closed spec fn spec_layout(&self) -> VertexBufferLayout {
        self.layout
    }

    /// A layout whose attribute number `i` has the id `attribute_ids[i]`.
    pub fn new(attribute_ids: Vec<MeshVertexAttributeId>, layout: VertexBufferLayout) -> (l: Self)
        requires
            attribute_ids@.len() == layout.attributes@.len(),
        ensures
            l.ids() == attribute_ids@,
            l.spec_layout() == layout,
    {
        Self { attribute_ids, layout }
    }

    pub fn contains(&self, attribute_id: MeshVertexAttributeId) -> (b: bool)
        ensures
            b == self.ids().contains(attribute_id),
    {
        let mut i: usize = 0;
        while i < self.attribute_ids.len()
            invariant
                i <= self.attribute_ids.len(),
                forall|j: int| 0 <= j < i ==> self.ids()[j] != attribute_id,
            decreases self.attribute_ids.len() - i,
        {
            if self.attribute_ids[i] == attribute_id {
                return true;
            }
            i += 1;
        }
        false
    }

    pub fn attribute_ids(&self) -> (ids: &[MeshVertexAttributeId])
        ensures
            ids@ == self.ids(),
    {
        self.attribute_ids.as_slice()
    }

    pub fn layout(&self) -> (layout: &VertexBufferLayout)
        ensures
            *layout == self.spec_layout(),
            layout.attributes@.len() == self.ids().len(),
    {
        proof {
            use_type_invariant(self);
        }
        &self.layout
    }

    /// The position of the first attribute with the id `id`, if there is
    /// one.
    fn position(&self, id: MeshVertexAttributeId) -> (r: Option<usize>)
        ensures
            match r {
                Some(i) => self.ids().contains(id) && i == first_position(self.ids(), id),
                None => !self.ids().contains(id),
            },
    {
        proof {
            lemma_first_position(self.ids(), id);
        }
        let mut i: usize = 0;
        while i < self.attribute_ids.len()
            invariant
                i <= self.attribute_ids.len(),
                forall|j: int| 0 <= j < i ==> self.ids()[j] != id,
                0 <= first_position(self.ids(), id) <= self.ids().len(),
                first_position(self.ids(), id) < self.ids().len() <==> self.ids().contains(id),
                first_position(self.ids(), id) < self.ids().len() ==> self.ids()[first_position(
                    self.ids(),
                    id,
                )] == id,
                forall|j: int| 0 <= j < first_position(self.ids(), id) ==> self.ids()[j] != id,
            decreases self.attribute_ids.len() - i,
        {
            if self.attribute_ids[i] == id {
                return Some(i);
            }
            i += 1;
        }
        None
    }

    /// The layout that binds the requested attributes, in the order of the
    /// request: each attribute keeps the format and offset it has in the
    /// mesh and gets the shader location of its descriptor; stride and step
    /// mode are those of the mesh.
    ///
    /// Fails on the first descriptor that names an attribute the mesh does
    /// not have.
    pub fn get_layout(&self, attribute_descriptors: &[VertexAttributeDescriptor]) -> (r: Result<
        VertexBufferLayout,
        MissingVertexAttributeError,
    >)
        ensures
            match r {
                Ok(layout) => {
                    &&& forall|i: int|
                        0 <= i < attribute_descriptors@.len() ==> self.ids().contains(
                            #[trigger] attribute_descriptors@[i].id,
                        )
                    &&& layout.array_stride == self.spec_layout().array_stride
                    &&& layout.step_mode == self.spec_layout().step_mode
                    &&& layout.attributes@.len() == attribute_descriptors@.len()
                    &&& forall|i: int|
                        0 <= i < attribute_descriptors@.len() ==> #[trigger] layout.attributes@[i]
                            == requested_attribute(
                            self.ids(),
                            self.spec_layout().attributes@,
                            attribute_descriptors@[i],
                        )
                },
                Err(e) => exists|i: int|
                    {
                        &&& 0 <= i < attribute_descriptors@.len()
                        &&& !self.ids().contains(#[trigger] attribute_descriptors@[i].id)
                        &&& forall|j: int|
                            0 <= j < i ==> self.ids().contains(
                                #[trigger] attribute_descriptors@[j].id,
                            )
                        &&& e.id == attribute_descriptors@[i].id
                        &&& e.name == attribute_descriptors@[i].name
                        &&& e.pipeline_type is None
                    },
            },
    {
        proof {
            use_type_invariant(self);
        }
        let mut attributes: Vec<VertexAttribute> = Vec::with_capacity(attribute_descriptors.len());
        let mut i: usize = 0;
        while i < attribute_descriptors.len()
            invariant
                i <= attribute_descriptors@.len(),
                self.ids().len() == self.spec_layout().attributes@.len(),
                attributes@.len() == i,
                forall|j: int|
                    0 <= j < i ==> self.ids().contains(#[trigger] attribute_descriptors@[j].id),
                forall|j: int|
                    0 <= j < i ==> #[trigger] attributes@[j] == requested_attribute(
                        self.ids(),
                        self.spec_layout().attributes@,
                        attribute_descriptors@[j],
                    ),
            decreases attribute_descriptors@.len() - i,
        {
            let attribute_descriptor = &attribute_descriptors[i];
            match self.position(attribute_descriptor.id) {
                Some(index) => {
                    proof {
                        lemma_first_position(self.ids(), attribute_descriptor.id);
                    }
                    let layout_attribute = &self.layout.attributes[index];
                    let ghost earlier = attributes@;
                    attributes.push(
                        VertexAttribute {
                            format: layout_attribute.format,
                            offset: layout_attribute.offset,
                            shader_location: attribute_descriptor.shader_location,
                        },
                    );
                    proof {
                        assert(index == first_position(self.ids(), attribute_descriptor.id));
                        assert(attributes@[i as int] == requested_attribute(
                            self.ids(),
                            self.spec_layout().attributes@,
                            attribute_descriptors@[i as int],
                        ));
                        assert forall|j: int| 0 <= j < i + 1 implies #[trigger] attributes@[j]
                            == requested_attribute(
                            self.ids(),
                            self.spec_layout().attributes@,
                            attribute_descriptors@[j],
                        ) by {
                            if j < i {
                                assert(attributes@[j] == earlier[j]);
                            }
                        }
                    }
                },
                None => {
                    return Err(
                        MissingVertexAttributeError {
                            id: attribute_descriptor.id,
                            name: attribute_descriptor.name,
                            pipeline_type: None,
                        },
                    );
                },
            }
            i += 1;
        }
        Ok(
            VertexBufferLayout {
                array_stride: self.layout.array_stride,
                step_mode: self.layout.step_mode,
                attributes,
            },
        )
    }
}

impl Clone for InnerMeshVertexBufferLayout {
    fn clone(&self) -> (copy: Self)
        ensures
            copy.ids() == self.ids(),
            copy.spec_layout().array_stride == self.spec_layout().array_stride,
            copy.spec_layout().step_mode == self.spec_layout().step_mode,
            copy.spec_layout().attributes@ == self.spec_layout().attributes@,
    {
        proof {
            use_type_invariant(self);
        }
        let mut attribute_ids: Vec<MeshVertexAttributeId> = Vec::new();
        let mut attributes: Vec<VertexAttribute> = Vec::new();
        let mut i: usize = 0;
        while i < self.attribute_ids.len()
            invariant
                i <= self.ids().len(),
                self.ids().len() == self.spec_layout().attributes@.len(),
                attribute_ids@ == self.ids().take(i as int),
                attributes@ == self.spec_layout().attributes@.take(i as int),
            decreases self.ids().len() - i,
        {
            attribute_ids.push(self.attribute_ids[i]);
            attributes.push(self.layout.attributes[i]);
            assert(attribute_ids@ =~= self.ids().take(i + 1));
            assert(attributes@ =~= self.spec_layout().attributes@.take(i + 1));
            i += 1;
        }
        assert(self.ids().take(self.ids().len() as int) =~= self.ids());
        assert(self.spec_layout().attributes@.take(self.ids().len() as int)
            =~= self.spec_layout().attributes@);
        Self {
            attribute_ids,
            layout: VertexBufferLayout {
                array_stride: self.layout.array_stride,
                step_mode: self.layout.step_mode,
                attributes,
            },
        }
    }
}

/// The attribute that a layout hands out for `descriptor`: format and offset
/// of the first mesh attribute with the descriptor's id, at the descriptor's
/// shader location.
pub open spec fn requested_attribute(
    ids: Seq<MeshVertexAttributeId>,
    attributes: Seq<VertexAttribute>,
    descriptor: VertexAttributeDescriptor,
) -> VertexAttribute {
    let found = attributes[first_position(ids, descriptor.id)];
    VertexAttribute {
        format: found.format,
        offset: found.offset,
        shader_location: descriptor.shader_location,
    }
}

/// An array of indices into the vertex attributes of a mesh. It describes
/// the order in which the vertices are joined into faces.
#[derive(Debug, Clone)]
pub enum Indices {
    U16(Vec<u16>),
    U32(Vec<u32>),
}

impl Indices {
    /// The indices as plain numbers.
    pub open spec fn view(&self) -> Seq<usize> {
        match self {
            Indices::U16(vec) => Seq::new(vec@.len(), |i: int| vec@[i] as usize),
            Indices::U32(vec) => Seq::new(vec@.len(), |i: int| vec@[i] as usize),
        }
    }

    /// The indices, in order.
    pub fn iter(&self) -> (indices: Vec<usize>)
        ensures
            indices@ == self@,
    {
        let mut indices: Vec<usize> = Vec::new();
        match self {
            Indices::U16(vec) => {
                let mut i: usize = 0;
                while i < vec.len()
                    invariant
                        i <= vec@.len(),
                        indices@.len() == i,
                        forall|j: int| 0 <= j < i ==> indices@[j] == vec@[j] as usize,
                    decreases vec@.len() - i,
                {
                    indices.push(vec[i] as usize);
                    i += 1;
                }
                assert(indices@ =~= self@);
            },
            Indices::U32(vec) => {
                let mut i: usize = 0;
                while i < vec.len()
                    invariant
                        i <= vec@.len(),
                        indices@.len() == i,
                        forall|j: int| 0 <= j < i ==> indices@[j] == vec@[j] as usize,
                    decreases vec@.len() - i,
                {
                    indices.push(vec[i] as usize);
                    i += 1;
                }
                assert(indices@ =~= self@);
            },
        }
        indices
    }

    /// Returns the number of indices.
    pub fn len(&self) -> (n: usize)
        ensures
            n == self@.len(),
    {
        match self {
            Indices::U16(vec) => vec.len(),
            Indices::U32(vec) => vec.len(),
        }
    }

    /// Returns `true` if there are no indices.
    pub fn is_empty(&self) -> (b: bool)
        ensures
            b == (self@.len() == 0),
    {
        match self {
            Indices::U16(vec) => vec.len() == 0,
            Indices::U32(vec) => vec.len() == 0,
        }
    }
}

/// How the vertices of a mesh are joined into primitives.
#[derive(Debug, Copy, Clone, PartialEq, Eq, Hash, Structural)]
pub enum PrimitiveTopology {
    PointList,
    LineList,
    LineStrip,
    TriangleList,
    TriangleStrip,
}

/// The two bytes of `value`, lowest first.
pub open spec fn le_bytes_u16(value: u16) -> Seq<u8> {
    seq![(value % 256) as u8, (value / 256) as u8]
}

/// The four bytes of `value`, lowest first.
pub open spec fn le_bytes_u32(value: u32) -> Seq<u8> {
    seq![
        (value % 256) as u8,
        (value / 256 % 256) as u8,
        (value / 65536 % 256) as u8,
        (value / 16777216) as u8,
    ]
}

/// Whether `bytes` holds the values of `lanes`, one after the other, each
/// as the `width` bytes of `encoded`, in the byte order of the machine:
/// lowest byte first throughout, or highest byte first throughout.
pub open spec fn is_native_encoding(
    bytes: Seq<u8>,
    count: nat,
    width: nat,
    encoded: spec_fn(int) -> Seq<u8>,
) -> bool {
    &&& bytes.len() == count * width
    &&& {
        ||| forall|i: int|
            0 <= i < count ==> #[trigger] bytes.subrange(i * width, i * width + width) == encoded(i)
        ||| forall|i: int|
            0 <= i < count ==> #[trigger] bytes.subrange(i * width, i * width + width) == encoded(
                i,
            ).reverse()
    }
}

/// `bytemuck::cast_slice` from `u16` to `u8`: the same memory, seen as
/// bytes. There are two bytes for each value, in the order of the values
/// and in the byte order of the machine.
#[verifier::external_body]
fn cast_u16_slice(values: &[u16]) -> (bytes: &[u8])
    ensures
        is_native_encoding(bytes@, values@.len(), 2, |i: int| le_bytes_u16(values@[i])),
{
    bytemuck::cast_slice(values)
}

/// `bytemuck::cast_slice` from `u32` to `u8`: the same memory, seen as
/// bytes. There are four bytes for each value, in the order of the values
/// and in the byte order of the machine.
#[verifier::external_body]
fn cast_u32_slice(values: &[u32]) -> (bytes: &[u8])
    ensures
        is_native_encoding(bytes@, values@.len(), 4, |i: int| le_bytes_u32(values@[i])),
{
    bytemuck::cast_slice(values)
}

impl Indices {
    /// The index data as bytes, in the form in which it is handed to the
    /// GPU: two bytes for each 16-bit index or four for each 32-bit index,
    /// in the byte order of the machine.
    pub fn get_bytes(&self) -> (bytes: &[u8])
        ensures
            match self {
                Indices::U16(vec) => is_native_encoding(
                    bytes@,
                    vec@.len(),
                    2,
                    |i: int| le_bytes_u16(vec@[i]),
                ),
                Indices::U32(vec) => is_native_encoding(
                    bytes@,
                    vec@.len(),
                    4,
                    |i: int| le_bytes_u32(vec@[i]),
                ),
            },
    {
        match self {
            Indices::U16(vec) => cast_u16_slice(vec.as_slice()),
            Indices::U32(vec) => cast_u32_slice(vec.as_slice()),
        }
    }
}

/// The values of one vertex attribute, one for each vertex: the format of a
/// value and the bytes of all values, one value after the other.
#[derive(Debug, Clone)]
pub struct VertexAttributeValues {
    pub format: VertexFormat,
    pub bytes: Vec<u8>,
}

impl VertexAttributeValues {
    /// The number of vertices, as a specification.
    pub open spec fn count(&self) -> nat {
        self.bytes@.len() / format_size(self.format)
    }

    /// The bytes of the value of vertex `i`.
    pub open spec fn value(&self, i: int) -> Seq<u8> {
        self.bytes@.subrange(
            i * format_size(self.format),
            i * format_size(self.format) + format_size(self.format),
        )
    }

    /// Returns the number of vertices. For a single mesh, all attributes
    /// must have the same number.
    pub fn len(&self) -> (n: usize)
        ensures
            n == self.count(),
    {
        proof {
            lemma_format_size_bounds(self.format);
        }
        self.bytes.len() / (self.format.get_size() as usize)
    }

    /// Returns `true` if there are no vertices.
    pub fn is_empty(&self) -> (b: bool)
        ensures
            b == (self.count() == 0),
    {
        self.len() == 0
    }

    /// The values as a sequence of bytes, for sending to the GPU.
    pub fn get_bytes(&self) -> (bytes: &[u8])
        ensures
            bytes@ == self.bytes@,
    {
        self.bytes.as_slice()
    }

    /// The format of the values.
    pub fn format(&self) -> (format: VertexFormat)
        ensures
            format == self.format,
    {
        self.format
    }
}

/// One vertex attribute of a mesh with its values.
#[derive(Debug, Clone)]
pub struct MeshAttributeData {
    pub attribute: MeshVertexAttribute,
    pub values: VertexAttributeValues,
}

/// The attribute ids of `attributes` are strictly increasing.
pub open spec fn sorted_by_id(attributes: Seq<MeshAttributeData>) -> bool {
    forall|i: int, j: int|
        0 <= i < j < attributes.len() ==> attributes[i].attribute.id.0 < attributes[j].attribute.id.0
}

/// The sum of the sizes of the formats of the first `n` attributes: the
/// offset of attribute number `n` in a vertex.
pub open spec fn offset_of(attributes: Seq<MeshAttributeData>, n: int) -> nat
    decreases n,
{
    if n <= 0 {
        0
    } else {
        offset_of(attributes, n - 1) + format_size(attributes[n - 1].attribute.format)
    }
}

/// An offset is at most 32 bytes for each attribute before it.
pub proof fn lemma_offset_bound(attributes: Seq<MeshAttributeData>, n: int)
    requires
        0 <= n,
    ensures
        offset_of(attributes, n) <= 32 * n,
    decreases n,
{
    if n > 0 {
        lemma_offset_bound(attributes, n - 1);
    }
}

/// The size in bytes of one displacement of a morph target: three 32-bit
/// lanes.
pub const DISPLACEMENT_SIZE: usize = 12;

/// The size in bytes of one pixel of a morph target image: four 32-bit
/// lanes.
pub const MORPH_TARGET_PIXEL_SIZE: usize = 16;

/// A morph target: for each vertex a displacement of its position, of its
/// normal and of its tangent, each as the bytes of three 32-bit lanes. Any
/// of the three may be left out.
#[derive(Debug, Clone)]
pub struct MorphTarget {
    pub position_displacement: Option<Vec<u8>>,
    pub normal_displacement: Option<Vec<u8>>,
    pub tangent_displacement: Option<Vec<u8>>,
}

/// The number of displacements in `row`, or 0 if the row is left out.
pub open spec fn displacement_count(row: Option<Vec<u8>>) -> nat {
    match row {
        Some(bytes) => bytes@.len() / 12,
        None => 0,
    }
}

impl MorphTarget {
    /// The number of vertices of the target, as a specification: that of
    /// the first displacement list that is there, or 0 if none is.
    pub open spec fn count(&self) -> nat {
        if self.position_displacement is Some {
            displacement_count(self.position_displacement)
        } else if self.normal_displacement is Some {
            displacement_count(self.normal_displacement)
        } else {
            displacement_count(self.tangent_displacement)
        }
    }

    /// A target without displacements.
    pub fn new() -> (t: Self)
        ensures
            t.position_displacement is None,
            t.normal_displacement is None,
            t.tangent_displacement is None,
    {
        MorphTarget {
            position_displacement: None,
            normal_displacement: None,
            tangent_displacement: None,
        }
    }

    /// Counts the vertices of the target.
    pub fn count_vertices(&self) -> (n: usize)
        ensures
            n == self.count(),
    {
        match &self.position_displacement {
            Some(bytes) => bytes.len() / DISPLACEMENT_SIZE,
            None => match &self.normal_displacement {
                Some(bytes) => bytes.len() / DISPLACEMENT_SIZE,
                None => match &self.tangent_displacement {
                    Some(bytes) => bytes.len() / DISPLACEMENT_SIZE,
                    None => 0,
                },
            },
        }
    }
}

/// Geometry: vertex attributes, kept in the order of their ids, morph
/// targets, and an optional list of indices that joins the vertices into
/// primitives.
pub struct Mesh {
    primitive_topology: PrimitiveTopology,
    attributes: Vec<MeshAttributeData>,
    morph_targets: Vec<MorphTarget>,
    indices: Option<Indices>,
}

impl Mesh {
    /// The attributes are kept in the order of their ids, which makes the
    /// order of the vertex buffer stable.
    pub open spec fn wf(&self) -> bool {
        sorted_by_id(self@)
    }

    /// The attributes with their values, in the order of their ids.
    pub closed spec fn view(&self) -> Seq<MeshAttributeData> {
        self.attributes@
    }

    pub closed spec fn spec_topology(&self) -> PrimitiveTopology {
        self.primitive_topology
    }

    pub closed spec fn spec_indices(&self) -> Option<Indices> {
        self.indices
    }

    /// The morph targets, in the order in which they were added.
    pub closed spec fn targets(&self) -> Seq<MorphTarget> {
        self.morph_targets@
    }

    /// The position of the attribute with the id `id`, or the number of
    /// attributes if there is none.
    pub open spec fn position_of(&self, id: MeshVertexAttributeId) -> int {
        first_position(Seq::new(self@.len(), |i: int| self@[i].attribute.id), id)
    }

    /// The ids of the attributes, in order.
    pub open spec fn ids(&self) -> Seq<MeshVertexAttributeId> {
        Seq::new(self@.len(), |i: int| self@[i].attribute.id)
    }

    /// Construct a new mesh without attributes and without indices.
    pub fn new(primitive_topology: PrimitiveTopology) -> (m: Self)
        ensures
            m@ == Seq::<MeshAttributeData>::empty(),
            m.targets() == Seq::<MorphTarget>::empty(),
            m.spec_topology() == primitive_topology,
            m.spec_indices() is None,
            m.wf(),
    {
        Mesh {
            primitive_topology,
            attributes: Vec::new(),
            morph_targets: Vec::new(),
            indices: None,
        }
    }

    /// Returns the topology of the mesh.
    pub fn primitive_topology(&self) -> (t: PrimitiveTopology)
        ensures
            t == self.spec_topology(),
    {
        self.primitive_topology
    }

    /// The number of attributes before the first one whose id is not below
    /// `id`.
    fn lower_bound(&self, id: MeshVertexAttributeId) -> (n: usize)
        requires
            self.wf(),
        ensures
            n <= self@.len(),
            forall|i: int| 0 <= i < n ==> self@[i].attribute.id.0 < id.0,
            forall|i: int| n <= i < self@.len() ==> self@[i].attribute.id.0 >= id.0,
    {
        let mut n: usize = 0;
        while n < self.attributes.len() && self.attributes[n].attribute.id.0 < id.0
            invariant
                n <= self@.len(),
                sorted_by_id(self@),
                forall|i: int| 0 <= i < n ==> self@[i].attribute.id.0 < id.0,
            decreases self@.len() - n,
        {
            n += 1;
        }
        n
    }

    /// Sets the data for a vertex attribute. The values of an attribute
    /// with the same id are replaced; a new attribute takes its place in the
    /// order of the ids.
    pub fn insert_attribute(&mut self, attribute: MeshVertexAttribute, values: VertexAttributeValues)
        requires
            old(self).wf(),
        ensures
            final(self).spec_topology() == old(self).spec_topology(),
            final(self).spec_indices() == old(self).spec_indices(),
            final(self).targets() == old(self).targets(),
            old(self).ids().contains(attribute.id) ==> final(self)@ == old(self)@.update(
                first_position(old(self).ids(), attribute.id),
                MeshAttributeData { attribute, values },
            ),
            !old(self).ids().contains(attribute.id) ==> exists|n: int|
                0 <= n <= old(self)@.len() && #[trigger] final(self)@ == old(self)@.insert(
                    n,
                    MeshAttributeData { attribute, values },
                ),
            final(self).wf(),
    {
        proof {
            lemma_first_position(self.ids(), attribute.id);
        }
        let n: usize = self.lower_bound(attribute.id);
        let present = n < self.attributes.len() && self.attributes[n].attribute.id.0
            == attribute.id.0;
        let mut attributes: Vec<MeshAttributeData> = Vec::new();
        core::mem::swap(&mut attributes, &mut self.attributes);
        let ghost before = attributes@;
        let data = MeshAttributeData { attribute, values };
        if present {
            attributes[n] = data;
            proof {
                let found = first_position(old(self).ids(), attribute.id);
                assert(old(self).ids()[n as int] == attribute.id);
                assert(old(self).ids().contains(attribute.id));
                if found < n {
                    assert(old(self).ids()[found] == attribute.id);
                    assert(before[found].attribute.id.0 < attribute.id.0);
                }
                if found > n {
                    assert(old(self).ids()[n as int] != attribute.id);
                }
                assert(sorted_by_id(attributes@)) by {
                    assert forall|i: int, j: int| 0 <= i < j
                        < attributes@.len() implies attributes@[i].attribute.id.0
                        < attributes@[j].attribute.id.0 by {
                        assert(before[i].attribute.id.0 < before[j].attribute.id.0);
                    }
                }
            }
        } else {
            attributes.insert(n, data);
            proof {
                assert(!old(self).ids().contains(attribute.id)) by {
                    if old(self).ids().contains(attribute.id) {
                        let i = choose|i: int|
                            0 <= i < old(self).ids().len() && old(self).ids()[i] == attribute.id;
                        assert(before[i].attribute.id == attribute.id);
                        if i > n {
                            assert(before[n as int].attribute.id.0 < before[i].attribute.id.0);
                        }
                    }
                }
                assert(sorted_by_id(attributes@)) by {
                    assert forall|i: int, j: int| 0 <= i < j
                        < attributes@.len() implies attributes@[i].attribute.id.0
                        < attributes@[j].attribute.id.0 by {
                        let a = if i < n {
                            i
                        } else {
                            i - 1
                        };
                        let b = if j < n {
                            j
                        } else {
                            j - 1
                        };
                        if i != n && j != n {
                            assert(attributes@[i] == before[a]);
                            assert(attributes@[j] == before[b]);
                        } else if i == n {
                            assert(attributes@[j] == before[b]);
                        } else {
                            assert(attributes@[i] == before[a]);
                        }
                    }
                }
            }
        }
        self.attributes = attributes;
    }

    /// The position of the attribute with the id `id`, if the mesh has it.
    fn find(&self, id: MeshVertexAttributeId) -> (r: Option<usize>)
        ensures
            match r {
                Some(n) => n < self@.len() && self@[n as int].attribute.id == id
                    && self.ids().contains(id) && n == first_position(self.ids(), id),
                None => !self.ids().contains(id),
            },
    {
        proof {
            lemma_first_position(self.ids(), id);
        }
        let mut n: usize = 0;
        while n < self.attributes.len()
            invariant
                n <= self@.len(),
                forall|i: int| 0 <= i < n ==> self.ids()[i] != id,
                0 <= first_position(self.ids(), id) <= self.ids().len(),
                first_position(self.ids(), id) < self.ids().len() <==> self.ids().contains(id),
                first_position(self.ids(), id) < self.ids().len() ==> self.ids()[first_position(
                    self.ids(),
                    id,
                )] == id,
                forall|i: int| 0 <= i < first_position(self.ids(), id) ==> self.ids()[i] != id,
            decreases self@.len() - n,
        {
            if self.attributes[n].attribute.id.0 == id.0 {
                assert(self.ids()[n as int] == id);
                return Some(n);
            }
            assert(self.ids()[n as int] != id);
            n += 1;
        }
        None
    }

    pub fn contains_attribute(&self, id: MeshVertexAttributeId) -> (b: bool)
        ensures
            b == self.ids().contains(id),
    {
        self.find(id).is_some()
    }

    /// Retrieves the data currently set to the vertex attribute with the
    /// id `id`.
    pub fn attribute(&self, id: MeshVertexAttributeId) -> (r: Option<&VertexAttributeValues>)
        ensures
            match r {
                Some(values) => self.ids().contains(id) && *values == self@[first_position(
                    self.ids(),
                    id,
                )].values,
                None => !self.ids().contains(id),
            },
    {
        match self.find(id) {
            Some(n) => Some(&self.attributes[n].values),
            None => None,
        }
    }

    /// Sets the vertex indices of the mesh.
    pub fn set_indices(&mut self, indices: Option<Indices>)
        ensures
            final(self).spec_indices() == indices,
            final(self)@ == old(self)@,
            final(self).targets() == old(self).targets(),
            final(self).spec_topology() == old(self).spec_topology(),
    {
        self.indices = indices;
    }

    /// Retrieves the vertex indices of the mesh.
    pub fn indices(&self) -> (r: Option<&Indices>)
        ensures
            match r {
                Some(indices) => self.spec_indices() == Some(*indices),
                None => self.spec_indices() is None,
            },
    {
        self.indices.as_ref()
    }

    /// Computes and returns the index data of the mesh as bytes, see
    /// [`Indices::get_bytes`].
    pub fn get_index_buffer_bytes(&self) -> (r: Option<&[u8]>)
        ensures
            match r {
                Some(bytes) => match self.spec_indices() {
                    Some(Indices::U16(vec)) => is_native_encoding(
                        bytes@,
                        vec@.len(),
                        2,
                        |i: int| le_bytes_u16(vec@[i]),
                    ),
                    Some(Indices::U32(vec)) => is_native_encoding(
                        bytes@,
                        vec@.len(),
                        4,
                        |i: int| le_bytes_u32(vec@[i]),
                    ),
                    None => false,
                },
                None => self.spec_indices() is None,
            },
    {
        match &self.indices {
            Some(indices) => Some(indices.get_bytes()),
            None => None,
        }
    }

    /// The number of attributes.
    pub fn attribute_count(&self) -> (n: usize)
        ensures
            n == self@.len(),
    {
        self.attributes.len()
    }

    /// The layout of the vertex buffer of this mesh: the attributes in the
    /// order of their ids, each directly behind its predecessor, bound to
    /// the shader location of its position in that order.
    ///
    /// There must be no more attributes than there are shader locations.
    pub fn get_mesh_vertex_buffer_layout(&self) -> (layout: InnerMeshVertexBufferLayout)
        requires
            self@.len() <= u32::MAX,
        ensures
            layout.ids() == self.ids(),
            layout.spec_layout().array_stride == offset_of(self@, self@.len() as int),
            layout.spec_layout().step_mode == VertexStepMode::Vertex,
            layout.spec_layout().attributes@.len() == self@.len(),
            forall|i: int|
                0 <= i < self@.len() ==> #[trigger] layout.spec_layout().attributes@[i]
                    == (VertexAttribute {
                    offset: offset_of(self@, i) as u64,
                    format: self@[i].attribute.format,
                    shader_location: i as u32,
                }),
    {
        let mut attributes: Vec<VertexAttribute> = Vec::with_capacity(self.attributes.len());
        let mut attribute_ids: Vec<MeshVertexAttributeId> = Vec::with_capacity(
            self.attributes.len(),
        );
        let mut accumulated_offset: u64 = 0;
        let mut index: usize = 0;
        while index < self.attributes.len()
            invariant
                index <= self@.len(),
                self@.len() <= u32::MAX,
                accumulated_offset == offset_of(self@, index as int),
                attributes@.len() == index,
                attribute_ids@.len() == index,
                forall|i: int| 0 <= i < index ==> attribute_ids@[i] == self@[i].attribute.id,
                forall|i: int|
                    0 <= i < index ==> #[trigger] attributes@[i] == (VertexAttribute {
                        offset: offset_of(self@, i) as u64,
                        format: self@[i].attribute.format,
                        shader_location: i as u32,
                    }),
            decreases self@.len() - index,
        {
            let data = &self.attributes[index];
            proof {
                lemma_offset_bound(self@, index + 1);
            }
            attribute_ids.push(data.attribute.id);
            attributes.push(
                VertexAttribute {
                    offset: accumulated_offset,
                    format: data.attribute.format,
                    shader_location: index as u32,
                },
            );
            accumulated_offset += data.attribute.format.get_size();
            index += 1;
        }
        assert(attribute_ids@ =~= self.ids());
        InnerMeshVertexBufferLayout::new(
            attribute_ids,
            VertexBufferLayout {
                array_stride: accumulated_offset,
                step_mode: VertexStepMode::Vertex,
                attributes,
            },
        )
    }

    /// The vertex counts of all attributes and morph targets, attributes
    /// first.
    pub open spec fn counts(&self) -> Seq<nat> {
        Seq::new(self@.len(), |i: int| self@[i].values.count()) + Seq::new(
            self.targets().len(),
            |i: int| self.targets()[i].count(),
        )
    }

    /// Whether all attributes and morph targets have the same number of
    /// vertices.
    pub open spec fn counts_agree(&self) -> bool {
        forall|i: int, j: int|
            0 <= i < self.counts().len() && 0 <= j < self.counts().len() ==> self.counts()[i]
                == self.counts()[j]
    }

    /// The number of vertices of the mesh, as a specification: that of its
    /// attributes and morph targets, or 0 if it has none.
    pub open spec fn vertex_count(&self) -> nat {
        if self.counts().len() == 0 {
            0
        } else {
            self.counts()[0]
        }
    }

    /// Tells whether all attributes and morph targets have the same number
    /// of vertices.
    pub fn has_uniform_vertex_count(&self) -> (b: bool)
        ensures
            b == self.counts_agree(),
    {
        let first: usize = if self.attributes.len() > 0 {
            self.attributes[0].values.len()
        } else if self.morph_targets.len() > 0 {
            self.morph_targets[0].count_vertices()
        } else {
            return true;
        };
        assert(first == self.counts()[0]);
        let mut i: usize = 0;
        while i < self.attributes.len()
            invariant
                i <= self@.len(),
                self.counts().len() > 0,
                first == self.counts()[0],
                forall|j: int| 0 <= j < i ==> #[trigger] self.counts()[j] == first,
            decreases self@.len() - i,
        {
            if self.attributes[i].values.len() != first {
                assert(self.counts()[i as int] != self.counts()[0]);
                return false;
            }
            i += 1;
        }
        let mut idx: usize = 0;
        while idx < self.morph_targets.len()
            invariant
                idx <= self.targets().len(),
                self.counts().len() > 0,
                first == self.counts()[0],
                forall|j: int| 0 <= j < self@.len() + idx ==> #[trigger] self.counts()[j] == first,
            decreases self.targets().len() - idx,
        {
            if self.morph_targets[idx].count_vertices() != first {
                assert(self.counts()[self@.len() + idx] != self.counts()[0]);
                return false;
            }
            assert(self.counts()[self@.len() + idx] == first);
            idx += 1;
        }
        true
    }

    /// Counts all vertices of the mesh. All attributes and morph targets
    /// must have the same number of vertices.
    pub fn count_vertices(&self) -> (n: usize)
        requires
            self.counts_agree(),
        ensures
            n == self.vertex_count(),
    {
        let mut vertex_count: Option<usize> = None;
        let mut i: usize = 0;
        while i < self.attributes.len()
            invariant
                i <= self@.len(),
                self.counts_agree(),
                i == 0 ==> vertex_count is None,
                i > 0 ==> vertex_count == Some(self.vertex_count() as usize)
                    && self.vertex_count() <= usize::MAX,
            decreases self@.len() - i,
        {
            let attribute_len: usize = self.attributes[i].values.len();
            assert(self.counts()[i as int] == self.counts()[0]);
            vertex_count = Some(attribute_len);
            i += 1;
        }
        let mut idx: usize = 0;
        while idx < self.morph_targets.len()
            invariant
                idx <= self.targets().len(),
                self.counts_agree(),
                self@.len() == 0 && idx == 0 ==> vertex_count is None,
                self@.len() > 0 || idx > 0 ==> vertex_count == Some(self.vertex_count() as usize)
                    && self.vertex_count() <= usize::MAX,
            decreases self.targets().len() - idx,
        {
            let morph_target_len: usize = self.morph_targets[idx].count_vertices();
            assert(self.counts()[self@.len() + idx] == self.counts()[0]);
            vertex_count = Some(morph_target_len);
            idx += 1;
        }
        match vertex_count {
            Some(n) => n,
            None => 0,
        }
    }

    /// Creates a blank new morph target and returns a mutable reference to
    /// it.
    pub fn add_morph_target(&mut self) -> (target: &mut MorphTarget)
        ensures
            target.position_displacement is None,
            target.normal_displacement is None,
            target.tangent_displacement is None,
            final(self).targets() == old(self).targets().push(*final(target)),
            final(self)@ == old(self)@,
            final(self).spec_topology() == old(self).spec_topology(),
            final(self).spec_indices() == old(self).spec_indices(),
    {
        let mut morph_targets: Vec<MorphTarget> = Vec::new();
        core::mem::swap(&mut morph_targets, &mut self.morph_targets);
        morph_targets.push(MorphTarget::new());
        self.morph_targets = morph_targets;
        let last: usize = self.morph_targets.len() - 1;
        &mut self.morph_targets[last]
    }

    /// Retrieves the morph target at a given index.
    pub fn morph_target(&self, target_idx: usize) -> (r: Option<&MorphTarget>)
        ensures
            match r {
                Some(target) => target_idx < self.targets().len() && *target
                    == self.targets()[target_idx as int],
                None => target_idx >= self.targets().len(),
            },
    {
        if target_idx < self.morph_targets.len() {
            Some(&self.morph_targets[target_idx])
        } else {
            None
        }
    }

    /// Retrieves the morph target at a given index mutably.
    pub fn morph_target_mut(&mut self, target_idx: usize) -> (r: Option<&mut MorphTarget>)
        ensures
            final(self)@ == old(self)@,
            final(self).spec_topology() == old(self).spec_topology(),
            final(self).spec_indices() == old(self).spec_indices(),
            match r {
                Some(target) => target_idx < old(self).targets().len() && *target
                    == old(self).targets()[target_idx as int] && final(self).targets()
                        == old(self).targets().update(target_idx as int, *final(target)),
                None => target_idx >= old(self).targets().len() && final(self).targets()
                    == old(self).targets(),
            },
    {
        if target_idx < self.morph_targets.len() {
            Some(&mut self.morph_targets[target_idx])
        } else {
            None
        }
    }

    /// Retrieves the data currently set to the vertex attribute with the
    /// id `id` mutably.
    pub fn attribute_mut(&mut self, id: MeshVertexAttributeId) -> (r: Option<
        &mut VertexAttributeValues,
    >)
        ensures
            final(self).targets() == old(self).targets(),
            final(self).spec_topology() == old(self).spec_topology(),
            final(self).spec_indices() == old(self).spec_indices(),
            match r {
                Some(values) => old(self).ids().contains(id) && *values
                    == old(self)@[first_position(old(self).ids(), id)].values && final(self)@
                        == old(self)@.update(
                    first_position(old(self).ids(), id),
                    MeshAttributeData {
                        attribute: old(self)@[first_position(old(self).ids(), id)].attribute,
                        values: *final(values),
                    },
                ),
                None => !old(self).ids().contains(id) && final(self)@ == old(self)@,
            },
    {
        match self.find(id) {
            Some(n) => Some(&mut self.attributes[n].values),
            None => None,
        }
    }

    /// Retrieves the vertex indices of the mesh mutably.
    pub fn indices_mut(&mut self) -> (r: Option<&mut Indices>)
        ensures
            final(self)@ == old(self)@,
            final(self).targets() == old(self).targets(),
            final(self).spec_topology() == old(self).spec_topology(),
            match r {
                Some(indices) => old(self).spec_indices() == Some(*indices)
                    && final(self).spec_indices() == Some(*final(indices)),
                None => old(self).spec_indices() is None && final(self).spec_indices() is None,
            },
    {
        self.indices.as_mut()
    }
}

/// The bytes that vertex `v` gets for one attribute in the vertex buffer:
/// the bytes of its value, cut by the size of the attribute's format, or
/// zeros if the values end before vertex `v`.
pub open spec fn attribute_chunk(data: MeshAttributeData, v: int) -> Seq<u8> {
    let size = format_size(data.attribute.format) as int;
    if v < data.values.bytes@.len() / format_size(data.attribute.format) {
        data.values.bytes@.subrange(v * size, v * size + size)
    } else {
        Seq::new(size as nat, |i: int| 0u8)
    }
}

/// The bytes of vertex `v` for the first `n` attributes, one attribute
/// after the other.
pub open spec fn vertex_bytes(attributes: Seq<MeshAttributeData>, v: int, n: int) -> Seq<u8>
    decreases n,
{
    if n <= 0 {
        Seq::empty()
    } else {
        vertex_bytes(attributes, v, n - 1) + attribute_chunk(attributes[n - 1], v)
    }
}

/// The vertex buffer of the first `count` vertices: the bytes of all
/// attributes of vertex 0, then those of vertex 1, and so on.
pub open spec fn interleaved(attributes: Seq<MeshAttributeData>, count: int) -> Seq<u8>
    decreases count,
{
    if count <= 0 {
        Seq::empty()
    } else {
        interleaved(attributes, count - 1) + vertex_bytes(
            attributes,
            count - 1,
            attributes.len() as int,
        )
    }
}

/// Each vertex takes as many bytes as the formats of all attributes
/// together.
pub proof fn lemma_interleaved_len(attributes: Seq<MeshAttributeData>, count: int)
    requires
        0 <= count,
    ensures
        interleaved(attributes, count).len() == count * offset_of(
            attributes,
            attributes.len() as int,
        ),
    decreases count,
{
    let size = offset_of(attributes, attributes.len() as int) as int;
    if count > 0 {
        lemma_interleaved_len(attributes, count - 1);
        lemma_vertex_bytes_len(attributes, count - 1, attributes.len() as int);
        assert(count * size == (count - 1) * size + size) by (nonlinear_arith);
    } else {
        assert(count * size == 0) by (nonlinear_arith)
            requires
                count == 0,
        ;
    }
}

/// The bytes of one vertex for the first `n` attributes are as many as
/// the offset of attribute `n`.
pub proof fn lemma_vertex_bytes_len(attributes: Seq<MeshAttributeData>, v: int, n: int)
    requires
        0 <= n,
        0 <= v,
    ensures
        vertex_bytes(attributes, v, n).len() == offset_of(attributes, n),
    decreases n,
{
    if n > 0 {
        lemma_vertex_bytes_len(attributes, v, n - 1);
        let data = attributes[n - 1];
        let size = format_size(data.attribute.format);
        if v < data.values.bytes@.len() / size {
            lemma_value_in_bounds(data.values.bytes@.len() as int, size as int, v);
        }
        assert(attribute_chunk(data, v).len() == size);
    }
}

/// The values `values[indices[0]]`, `values[indices[1]]`, ..., for values of
/// `size` bytes each, up to index number `n`.
pub open spec fn gathered(bytes: Seq<u8>, size: int, indices: Seq<usize>, n: int) -> Seq<u8>
    decreases n,
{
    if n <= 0 {
        Seq::empty()
    } else {
        gathered(bytes, size, indices, n - 1) + bytes.subrange(
            indices[n - 1] * size,
            indices[n - 1] * size + size,
        )
    }
}

/// Appends the `size` bytes of `bytes` that start at `start` to `out`.
fn append_bytes(out: &mut Vec<u8>, bytes: &Vec<u8>, start: usize, size: usize)
    requires
        start + size <= bytes@.len(),
    ensures
        final(out)@ == old(out)@ + bytes@.subrange(start as int, start + size),
{
    let len: usize = bytes.len();
    let mut b: usize = 0;
    assert(bytes@.subrange(start as int, start as int) =~= Seq::<u8>::empty());
    while b < size
        invariant
            b <= size,
            start + size <= bytes@.len(),
            bytes@.len() == len,
            out@ == old(out)@ + bytes@.subrange(start as int, start + b),
        decreases size - b,
    {
        out.push(bytes[start + b]);
        assert(bytes@.subrange(start as int, start + b + 1) =~= bytes@.subrange(
            start as int,
            start + b,
        ).push(bytes@[start + b]));
        b += 1;
    }
}

/// Appends `size` zero bytes to `out`.
fn append_zeros(out: &mut Vec<u8>, size: usize)
    ensures
        final(out)@ == old(out)@ + Seq::new(size as nat, |i: int| 0u8),
{
    let mut b: usize = 0;
    while b < size
        invariant
            b <= size,
            out@ == old(out)@ + Seq::new(b as nat, |i: int| 0u8),
        decreases size - b,
    {
        out.push(0);
        assert(Seq::new((b + 1) as nat, |i: int| 0u8) =~= Seq::new(b as nat, |i: int| 0u8).push(
            0u8,
        ));
        b += 1;
    }
}

/// Value number `v` of values of `size` bytes lies within `len` bytes when
/// `v` is below `len / size`.
proof fn lemma_value_in_bounds(len: int, size: int, v: int)
    requires
        size > 0,
        0 <= v < len / size,
        0 <= len,
    ensures
        0 <= v * size,
        v * size + size <= len,
{
    assert(v * size + size <= len && 0 <= v * size) by (nonlinear_arith)
        requires
            size > 0,
            0 <= v,
            v + 1 <= len / size,
            0 <= len,
    ;
}

impl Mesh {
    /// Computes and returns the vertex data of the mesh as bytes, for
    /// sending to the GPU: the values of all attributes of the first vertex,
    /// in the order of the attribute ids, then those of the second vertex,
    /// and so on.
    ///
    /// All attributes must have the same number of vertices, and no
    /// attribute may hold more values of the size of its format than that.
    pub fn get_vertex_buffer_data(&self) -> (data: Vec<u8>)
        requires
            self.counts_agree(),
            forall|a: int|
                0 <= a < self@.len() ==> (#[trigger] self@[a]).values.bytes@.len() / format_size(
                    self@[a].attribute.format,
                ) <= self.vertex_count(),
        ensures
            data@ == interleaved(self@, self.vertex_count() as int),
            data@.len() == self.vertex_count() * offset_of(self@, self@.len() as int),
    {
        proof {
            lemma_interleaved_len(self@, self.vertex_count() as int);
        }
        let vertex_count: usize = self.count_vertices();
        let mut data: Vec<u8> = Vec::new();
        let mut v: usize = 0;
        while v < vertex_count
            invariant
                v <= vertex_count,
                data@ == interleaved(self@, v as int),
            decreases vertex_count - v,
        {
            let ghost start = data@;
            let mut a: usize = 0;
            while a < self.attributes.len()
                invariant
                    a <= self@.len(),
                    data@ == start + vertex_bytes(self@, v as int, a as int),
                decreases self@.len() - a,
            {
                let attribute_data = &self.attributes[a];
                let size: usize = attribute_data.attribute.format.get_size() as usize;
                proof {
                    lemma_format_size_bounds(attribute_data.attribute.format);
                }
                let ghost before = data@;
                if v < attribute_data.values.bytes.len() / size {
                    proof {
                        lemma_value_in_bounds(
                            attribute_data.values.bytes@.len() as int,
                            size as int,
                            v as int,
                        );
                    }
                    append_bytes(&mut data, &attribute_data.values.bytes, v * size, size);
                } else {
                    append_zeros(&mut data, size);
                }
                assert(data@ == before + attribute_chunk(self@[a as int], v as int));
                assert(data@ =~= start + vertex_bytes(self@, v as int, a + 1));
                a += 1;
            }
            assert(data@ =~= interleaved(self@, v + 1));
            v += 1;
        }
        data
    }

    /// Whether every index names a vertex of every attribute.
    pub open spec fn indices_in_range(&self, indices: Seq<usize>) -> bool {
        forall|a: int, k: int|
            0 <= a < self@.len() && 0 <= k < indices.len() ==> (#[trigger] indices[k]) < (
            #[trigger] self@[a]).values.count()
    }

    /// Tells whether every index of the mesh names a vertex of every
    /// attribute. A mesh without indices passes.
    pub fn has_valid_indices(&self) -> (b: bool)
        ensures
            b == match self.spec_indices() {
                Some(indices) => self.indices_in_range(indices@),
                None => true,
            },
    {
        let indices = match &self.indices {
            Some(indices) => indices.iter(),
            None => {
                return true;
            },
        };
        let mut a: usize = 0;
        while a < self.attributes.len()
            invariant
                a <= self@.len(),
                self.spec_indices() is Some,
                indices@ == self.spec_indices()->0@,
                forall|p: int, k: int|
                    0 <= p < a && 0 <= k < indices@.len() ==> (#[trigger] indices@[k]) < (
                    #[trigger] self@[p]).values.count(),
            decreases self@.len() - a,
        {
            let count: usize = self.attributes[a].values.len();
            let mut k: usize = 0;
            while k < indices.len()
                invariant
                    k <= indices@.len(),
                    a < self@.len(),
                    self.spec_indices() is Some,
                    indices@ == self.spec_indices()->0@,
                    count == self@[a as int].values.count(),
                    forall|m: int| 0 <= m < k ==> (#[trigger] indices@[m]) < count,
                decreases indices@.len() - k,
            {
                if indices[k] >= count {
                    assert(!self.indices_in_range(indices@)) by {
                        if self.indices_in_range(indices@) {
                            assert(indices@[k as int] < self@[a as int].values.count());
                        }
                    }
                    return false;
                }
                k += 1;
            }
            a += 1;
        }
        true
    }

    /// Duplicates the vertex attributes so that no vertices are shared: the
    /// indices are taken out of the mesh, and each attribute gets, for each
    /// index in turn, the value of the vertex that the index names.
    ///
    /// Does nothing if no indices are set. The mesh must be a triangle list,
    /// and every index must name a vertex of every attribute.
    pub fn duplicate_vertices(&mut self)
        requires
            old(self).spec_topology() == PrimitiveTopology::TriangleList,
            old(self).spec_indices() is Some ==> old(self).indices_in_range(
                old(self).spec_indices()->0@,
            ),
        ensures
            final(self).spec_topology() == old(self).spec_topology(),
            final(self).targets() == old(self).targets(),
            final(self).spec_indices() is None,
            old(self).wf() ==> final(self).wf(),
            old(self).spec_indices() is None ==> final(self)@ == old(self)@,
            old(self).spec_indices() is Some ==> {
                &&& final(self)@.len() == old(self)@.len()
                &&& forall|a: int|
                    0 <= a < old(self)@.len() ==> {
                        let before = old(self)@[a];
                        let after = #[trigger] final(self)@[a];
                        &&& after.attribute == before.attribute
                        &&& after.values.format == before.values.format
                        &&& after.values.bytes@ == gathered(
                            before.values.bytes@,
                            format_size(before.values.format) as int,
                            old(self).spec_indices()->0@,
                            old(self).spec_indices()->0@.len() as int,
                        )
                    }
            },
    {
        let indices = match &self.indices {
            Some(indices) => indices.iter(),
            None => {
                return ;
            },
        };
        let mut duplicated: Vec<MeshAttributeData> = Vec::new();
        let mut a: usize = 0;
        while a < self.attributes.len()
            invariant
                a <= self@.len(),
                *self == *old(self),
                self.spec_indices() is Some,
                indices@ == self.spec_indices()->0@,
                self.indices_in_range(indices@),
                duplicated@.len() == a,
                forall|p: int|
                    0 <= p < a ==> {
                        let before = self@[p];
                        let after = #[trigger] duplicated@[p];
                        &&& after.attribute == before.attribute
                        &&& after.values.format == before.values.format
                        &&& after.values.bytes@ == gathered(
                            before.values.bytes@,
                            format_size(before.values.format) as int,
                            indices@,
                            indices@.len() as int,
                        )
                    },
            decreases self@.len() - a,
        {
            let data = &self.attributes[a];
            let size: usize = data.values.format.get_size() as usize;
            proof {
                lemma_format_size_bounds(data.values.format);
            }
            let mut bytes: Vec<u8> = Vec::new();
            let mut k: usize = 0;
            while k < indices.len()
                invariant
                    k <= indices@.len(),
                    a < self@.len(),
                    *data == self@[a as int],
                    size == format_size(data.values.format),
                    self.indices_in_range(indices@),
                    bytes@ == gathered(data.values.bytes@, size as int, indices@, k as int),
                decreases indices@.len() - k,
            {
                let i: usize = indices[k];
                let len: usize = data.values.bytes.len();
                proof {
                    assert(indices@[k as int] < self@[a as int].values.count());
                    lemma_value_in_bounds(data.values.bytes@.len() as int, size as int, i as int);
                }
                append_bytes(&mut bytes, &data.values.bytes, i * size, size);
                k += 1;
            }
            let ghost earlier = duplicated@;
            duplicated.push(
                MeshAttributeData {
                    attribute: data.attribute,
                    values: VertexAttributeValues { format: data.values.format, bytes },
                },
            );
            assert forall|p: int| 0 <= p < a implies duplicated@[p] == earlier[p] by {}
            a += 1;
        }
        proof {
            if old(self).wf() {
                assert forall|i: int, j: int| 0 <= i < j
                    < duplicated@.len() implies duplicated@[i].attribute.id.0
                    < duplicated@[j].attribute.id.0 by {
                    assert(duplicated@[i].attribute == self@[i].attribute);
                    assert(duplicated@[j].attribute == self@[j].attribute);
                }
            }
        }
        let primitive_topology = self.primitive_topology;
        let mut morph_targets: Vec<MorphTarget> = Vec::new();
        core::mem::swap(&mut morph_targets, &mut self.morph_targets);
        *self = Mesh { primitive_topology, attributes: duplicated, morph_targets, indices: None };
    }
}

/// The pixel that vertex `p` gets in one row of a morph target image: the
/// twelve bytes of its displacement, padded with four zero bytes, or all
/// zeros if the row has no displacement for it.
pub open spec fn displacement_pixel(row: Option<Vec<u8>>, p: int) -> Seq<u8> {
    if row is Some && 0 <= p < row->0@.len() / 12 {
        row->0@.subrange(p * 12, p * 12 + 12) + Seq::new(4, |i: int| 0u8)
    } else {
        Seq::new(16, |i: int| 0u8)
    }
}

/// The first `n` pixels of one row of a morph target image.
pub open spec fn image_row(row: Option<Vec<u8>>, n: int) -> Seq<u8>
    decreases n,
{
    if n <= 0 {
        Seq::empty()
    } else {
        image_row(row, n - 1) + displacement_pixel(row, n - 1)
    }
}

/// The three rows of a morph target: positions, normals, tangents.
pub open spec fn target_rows(target: MorphTarget, width: int) -> Seq<u8> {
    image_row(target.position_displacement, width) + image_row(target.normal_displacement, width)
        + image_row(target.tangent_displacement, width)
}

/// The rows of the first `n` morph targets.
pub open spec fn image_data(targets: Seq<MorphTarget>, width: int, n: int) -> Seq<u8>
    decreases n,
{
    if n <= 0 {
        Seq::empty()
    } else {
        image_data(targets, width, n - 1) + target_rows(targets[n - 1], width)
    }
}

/// The morph targets of a mesh as the data of a two-dimensional image with
/// four 32-bit lanes for each pixel: one pixel for each vertex, three rows
/// for each target.
#[derive(Debug, Clone)]
pub struct MorphTargetImage {
    pub width: u32,
    pub height: u32,
    pub data: Vec<u8>,
}

/// Appends one row of `width` pixels to `dst`, see [`image_row`].
pub fn write_morph_target_row(row: &Option<Vec<u8>>, dst: &mut Vec<u8>, width: usize)
    ensures
        final(dst)@ == old(dst)@ + image_row(*row, width as int),
{
    let mut p: usize = 0;
    while p < width
        invariant
            p <= width,
            dst@ == old(dst)@ + image_row(*row, p as int),
        decreases width - p,
    {
        let ghost before = dst@;
        let mut written = false;
        match row {
            Some(bytes) => {
                if p < bytes.len() / DISPLACEMENT_SIZE {
                    proof {
                        lemma_value_in_bounds(bytes@.len() as int, 12, p as int);
                    }
                    append_bytes(dst, bytes, p * DISPLACEMENT_SIZE, DISPLACEMENT_SIZE);
                    append_zeros(dst, MORPH_TARGET_PIXEL_SIZE - DISPLACEMENT_SIZE);
                    written = true;
                }
            },
            None => {},
        }
        if !written {
            append_zeros(dst, MORPH_TARGET_PIXEL_SIZE);
        }
        assert(dst@ =~= before + displacement_pixel(*row, p as int));
        assert(dst@ =~= old(dst)@ + image_row(*row, p + 1));
        p += 1;
    }
}

impl Mesh {
    /// Creates the image data of the morph targets stored within the mesh.
    /// Returns `None` if there is no morph target.
    ///
    /// All attributes and morph targets must have the same number of
    /// vertices, and width and height of the image must fit in 32 bits.
    pub fn create_morph_target_image(&self) -> (r: Option<MorphTargetImage>)
        requires
            self.counts_agree(),
            self.vertex_count() <= u32::MAX,
            self.targets().len() * 3 <= u32::MAX,
        ensures
            match r {
                Some(image) => {
                    &&& self.targets().len() > 0
                    &&& image.width == self.vertex_count()
                    &&& image.height == self.targets().len() * 3
                    &&& image.data@ == image_data(
                        self.targets(),
                        self.vertex_count() as int,
                        self.targets().len() as int,
                    )
                },
                None => self.targets().len() == 0,
            },
    {
        if self.morph_targets.len() == 0 {
            return None;
        }
        let vertex_count: usize = self.count_vertices();
        let mut data: Vec<u8> = Vec::new();
        let mut t: usize = 0;
        while t < self.morph_targets.len()
            invariant
                t <= self.targets().len(),
                data@ == image_data(self.targets(), vertex_count as int, t as int),
            decreases self.targets().len() - t,
        {
            let morph_target = &self.morph_targets[t];
            let ghost before = data@;
            write_morph_target_row(&morph_target.position_displacement, &mut data, vertex_count);
            write_morph_target_row(&morph_target.normal_displacement, &mut data, vertex_count);
            write_morph_target_row(&morph_target.tangent_displacement, &mut data, vertex_count);
            assert(data@ =~= before + target_rows(self.targets()[t as int], vertex_count as int));
            t += 1;
        }
        Some(
            MorphTargetImage {
                width: vertex_count as u32,
                // 3 attributes per morph target: position, normal, tangent.
                height: self.morph_targets.len() as u32 * 3,
                data,
            },
        )
    }
}

/// The format of the indices of a mesh.
#[derive(Debug, Copy, Clone, PartialEq, Eq, Hash, Structural)]
pub enum IndexFormat {
    Uint16,
    Uint32,
}

impl From<&Indices> for IndexFormat {
    fn from(indices: &Indices) -> (format: Self) {
        indices.index_format()
    }
}

impl vstd::std_specs::convert::FromSpecImpl<&Indices> for IndexFormat {
    open spec fn obeys_from_spec() -> bool {
        true
    }

    open spec fn from_spec(indices: &Indices) -> Self {
        match indices {
            Indices::U16(_) => IndexFormat::Uint16,
            Indices::U32(_) => IndexFormat::Uint32,
        }
    }
}

impl From<&VertexAttributeValues> for VertexFormat {
    fn from(values: &VertexAttributeValues) -> (format: Self) {
        values.format
    }
}

impl vstd::std_specs::convert::FromSpecImpl<&VertexAttributeValues> for VertexFormat {
    open spec fn obeys_from_spec() -> bool {
        true
    }

    open spec fn from_spec(values: &VertexAttributeValues) -> Self {
        values.format
    }
}

impl Indices {
    /// The format in which the indices are stored.
    pub fn index_format(&self) -> (format: IndexFormat)
        ensures
            format == match self {
                Indices::U16(_) => IndexFormat::Uint16,
                Indices::U32(_) => IndexFormat::Uint32,
            },
    {
        match self {
            Indices::U16(_) => IndexFormat::Uint16,
            Indices::U32(_) => IndexFormat::Uint32,
        }
    }
}

} // verus!
