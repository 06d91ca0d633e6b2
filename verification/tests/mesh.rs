use ecs_core::mesh::{
    write_morph_target_row, IndexFormat, Indices, InnerMeshVertexBufferLayout, Mesh,
    MeshVertexAttribute, MeshVertexAttributeId, MorphTarget, PrimitiveTopology, VertexAttribute,
    VertexAttributeDescriptor, VertexAttributeValues, VertexBufferLayout, VertexFormat,
    VertexFormatSize, VertexStepMode, INDEX_BUFFER_ASSET_INDEX, VERTEX_ATTRIBUTE_BUFFER_ID,
};

const POSITION: MeshVertexAttribute =
    MeshVertexAttribute { name: "Vertex_Position", id: MeshVertexAttributeId(0), format: VertexFormat::Float32x3 };
const NORMAL: MeshVertexAttribute =
    MeshVertexAttribute { name: "Vertex_Normal", id: MeshVertexAttributeId(1), format: VertexFormat::Float32x3 };
const UV_0: MeshVertexAttribute =
    MeshVertexAttribute { name: "Vertex_Uv", id: MeshVertexAttributeId(2), format: VertexFormat::Float32x2 };
const COLOR: MeshVertexAttribute =
    MeshVertexAttribute { name: "Vertex_Color", id: MeshVertexAttributeId(4), format: VertexFormat::Uint32 };

fn layout() -> InnerMeshVertexBufferLayout {
    let attributes = vec![
        VertexAttribute { format: POSITION.format, offset: 0, shader_location: 0 },
        VertexAttribute { format: NORMAL.format, offset: 12, shader_location: 1 },
        VertexAttribute { format: UV_0.format, offset: 24, shader_location: 2 },
    ];
    InnerMeshVertexBufferLayout::new(
        vec![POSITION.id, NORMAL.id, UV_0.id],
        VertexBufferLayout { array_stride: 32, step_mode: VertexStepMode::Vertex, attributes },
    )
}

#[test]
fn buffer_ids_are_fixed() {
    assert_eq!(INDEX_BUFFER_ASSET_INDEX, 0);
    assert_eq!(VERTEX_ATTRIBUTE_BUFFER_ID, 10);
}

#[test]
fn the_size_of_a_format_is_lanes_times_lane_size() {
    assert_eq!(VertexFormat::Uint8x2.get_size(), 2);
    assert_eq!(VertexFormat::Snorm8x4.get_size(), 4);
    assert_eq!(VertexFormat::Unorm16x2.get_size(), 4);
    assert_eq!(VertexFormat::Float16x4.get_size(), 8);
    assert_eq!(VertexFormat::Float32.get_size(), 4);
    assert_eq!(VertexFormat::Float32x3.get_size(), 12);
    assert_eq!(VertexFormat::Uint32x4.get_size(), 16);
    assert_eq!(VertexFormat::Sint32x2.get_size(), 8);
    assert_eq!(VertexFormat::Float64.get_size(), 8);
    assert_eq!(VertexFormat::Float64x3.get_size(), 24);
    assert_eq!(VertexFormat::Float64x4.get_size(), 32);
}

#[test]
fn a_layout_knows_its_attributes() {
    let layout = layout();
    assert!(layout.contains(NORMAL.id));
    assert!(!layout.contains(COLOR.id));
    assert_eq!(layout.attribute_ids(), &[POSITION.id, NORMAL.id, UV_0.id]);
    assert_eq!(layout.layout().array_stride, 32);
    assert_eq!(layout.layout().attributes.len(), 3);
    let copy = layout.clone();
    assert_eq!(copy, layout);
}

#[test]
fn requested_attributes_keep_format_and_offset() {
    let layout = layout();
    let requested = layout
        .get_layout(&[UV_0.at_shader_location(0), POSITION.at_shader_location(5)])
        .unwrap();
    assert_eq!(requested.array_stride, 32);
    assert_eq!(requested.step_mode, VertexStepMode::Vertex);
    assert_eq!(
        requested.attributes,
        vec![
            VertexAttribute { format: VertexFormat::Float32x2, offset: 24, shader_location: 0 },
            VertexAttribute { format: VertexFormat::Float32x3, offset: 0, shader_location: 5 },
        ]
    );
    let nothing = layout.get_layout(&[]).unwrap();
    assert_eq!(nothing.attributes, Vec::new());
    assert_eq!(nothing.array_stride, 32);
}

#[test]
fn the_first_missing_attribute_is_reported() {
    let layout = layout();
    let tangent = MeshVertexAttribute::new("Vertex_Tangent", 3, VertexFormat::Float32x4);
    let error = layout
        .get_layout(&[
            NORMAL.at_shader_location(0),
            COLOR.at_shader_location(1),
            tangent.at_shader_location(2),
        ])
        .unwrap_err();
    assert_eq!(error.id, MeshVertexAttributeId(4));
    assert_eq!(error.name, "Vertex_Color");
    assert_eq!(error.pipeline_type, None);
}

#[test]
fn a_descriptor_carries_location_id_and_name() {
    let descriptor = VertexAttributeDescriptor::new(3, MeshVertexAttributeId(8), "custom");
    assert_eq!(descriptor.shader_location, 3);
    assert_eq!(descriptor.id, MeshVertexAttributeId(8));
    assert_eq!(descriptor.name, "custom");
    let attribute = MeshVertexAttribute::new("custom", 8, VertexFormat::Uint32);
    assert_eq!(attribute.id, MeshVertexAttributeId(8));
    assert_eq!(attribute.at_shader_location(3).name, "custom");
}

#[test]
fn indices_are_widened_in_order() {
    let short = Indices::U16(vec![0, 2, 1, 65_535]);
    assert_eq!(short.len(), 4);
    assert!(!short.is_empty());
    assert_eq!(short.iter(), vec![0, 2, 1, 65_535]);
    let long = Indices::U32(vec![7, 70_000]);
    assert_eq!(long.iter(), vec![7, 70_000]);
    assert_eq!(long.len(), 2);
    assert!(Indices::U32(Vec::new()).is_empty());
    assert!(Indices::U16(Vec::new()).is_empty());
    assert_eq!(Indices::U16(Vec::new()).iter(), Vec::<usize>::new());
}

fn values(format: VertexFormat, bytes: Vec<u8>) -> VertexAttributeValues {
    VertexAttributeValues { format, bytes }
}

fn numbered(from: u8, n: usize) -> Vec<u8> {
    (0..n).map(|i| from + i as u8).collect()
}

/// Three vertices with a color (4 bytes), a position (12 bytes) and a uv (8 bytes),
/// inserted out of order.
fn triangle() -> Mesh {
    let mut mesh = Mesh::new(PrimitiveTopology::TriangleList);
    mesh.insert_attribute(COLOR, values(VertexFormat::Uint32, numbered(200, 12)));
    mesh.insert_attribute(POSITION, values(VertexFormat::Float32x3, numbered(0, 36)));
    mesh.insert_attribute(UV_0, values(VertexFormat::Float32x2, numbered(100, 24)));
    mesh
}

#[test]
fn attributes_are_kept_in_the_order_of_their_ids() {
    let mut mesh = triangle();
    assert_eq!(mesh.primitive_topology(), PrimitiveTopology::TriangleList);
    assert!(mesh.contains_attribute(UV_0.id));
    assert!(!mesh.contains_attribute(NORMAL.id));
    assert!(mesh.attribute(NORMAL.id).is_none());
    assert_eq!(mesh.attribute(COLOR.id).unwrap().bytes, numbered(200, 12));
    assert_eq!(mesh.attribute(COLOR.id).unwrap().format(), VertexFormat::Uint32);
    assert_eq!(mesh.attribute(POSITION.id).unwrap().len(), 3);
    assert!(!mesh.attribute(POSITION.id).unwrap().is_empty());
    assert_eq!(mesh.attribute(POSITION.id).unwrap().get_bytes(), &numbered(0, 36)[..]);
    let layout = mesh.get_mesh_vertex_buffer_layout();
    assert_eq!(layout.attribute_ids(), &[POSITION.id, UV_0.id, COLOR.id]);
    assert_eq!(layout.layout().array_stride, 24);
    assert_eq!(layout.layout().step_mode, VertexStepMode::Vertex);
    assert_eq!(
        layout.layout().attributes,
        vec![
            VertexAttribute { format: VertexFormat::Float32x3, offset: 0, shader_location: 0 },
            VertexAttribute { format: VertexFormat::Float32x2, offset: 12, shader_location: 1 },
            VertexAttribute { format: VertexFormat::Uint32, offset: 20, shader_location: 2 },
        ]
    );
    // the values of an attribute that is there are replaced
    mesh.insert_attribute(UV_0, values(VertexFormat::Float32x2, numbered(50, 24)));
    assert_eq!(mesh.get_mesh_vertex_buffer_layout().attribute_ids().len(), 3);
    assert_eq!(mesh.attribute(UV_0.id).unwrap().bytes, numbered(50, 24));
    mesh.attribute_mut(UV_0.id).unwrap().bytes[0] = 7;
    assert_eq!(mesh.attribute(UV_0.id).unwrap().bytes[0], 7);
    assert!(mesh.attribute_mut(NORMAL.id).is_none());
    let empty = Mesh::new(PrimitiveTopology::LineList);
    assert_eq!(empty.get_mesh_vertex_buffer_layout().layout().array_stride, 0);
}

#[test]
fn vertices_are_counted_when_all_attributes_agree() {
    let mut mesh = triangle();
    assert!(mesh.has_uniform_vertex_count());
    assert_eq!(mesh.count_vertices(), 3);
    mesh.insert_attribute(NORMAL, values(VertexFormat::Float32x3, numbered(0, 24)));
    assert!(!mesh.has_uniform_vertex_count());
    let empty = Mesh::new(PrimitiveTopology::TriangleList);
    assert!(empty.has_uniform_vertex_count());
    assert_eq!(empty.count_vertices(), 0);
    let mut morphed = triangle();
    morphed.add_morph_target().position_displacement = Some(numbered(0, 36));
    assert!(morphed.has_uniform_vertex_count());
    assert_eq!(morphed.count_vertices(), 3);
    morphed.add_morph_target();
    assert!(!morphed.has_uniform_vertex_count());
    morphed.morph_target_mut(1).unwrap().tangent_displacement = Some(numbered(0, 36));
    assert!(morphed.has_uniform_vertex_count());
    assert_eq!(morphed.morph_target(1).unwrap().count_vertices(), 3);
    assert!(morphed.morph_target(2).is_none());
    assert!(morphed.morph_target_mut(2).is_none());
    assert_eq!(MorphTarget::new().count_vertices(), 0);
}

#[test]
fn the_vertex_buffer_interleaves_the_attributes() {
    let mesh = triangle();
    let data = mesh.get_vertex_buffer_data();
    let mut expected = Vec::new();
    for v in 0..3u8 {
        expected.extend(numbered(12 * v, 12));
        expected.extend(numbered(100 + 8 * v, 8));
        expected.extend(numbered(200 + 4 * v, 4));
    }
    assert_eq!(data, expected);
    assert_eq!(data.len(), 3 * 24);
    assert_eq!(Mesh::new(PrimitiveTopology::TriangleList).get_vertex_buffer_data(), Vec::<u8>::new());
}

#[test]
fn duplicated_vertices_follow_the_indices() {
    let mut mesh = triangle();
    assert!(mesh.has_valid_indices());
    mesh.duplicate_vertices();
    assert_eq!(mesh.count_vertices(), 3);
    mesh.set_indices(Some(Indices::U32(vec![0, 3])));
    assert!(!mesh.has_valid_indices());
    mesh.set_indices(Some(Indices::U16(vec![2, 0, 1, 2])));
    assert!(mesh.has_valid_indices());
    assert_eq!(mesh.indices().unwrap().len(), 4);
    match mesh.indices_mut().unwrap() {
        Indices::U16(vec) => vec.push(2),
        Indices::U32(_) => panic!("the indices were set as 16-bit"),
    }
    mesh.duplicate_vertices();
    assert!(mesh.indices().is_none());
    assert!(mesh.indices_mut().is_none());
    assert_eq!(mesh.count_vertices(), 5);
    let color = &mesh.attribute(COLOR.id).unwrap().bytes;
    assert_eq!(
        color,
        &vec![208, 209, 210, 211, 200, 201, 202, 203, 204, 205, 206, 207, 208, 209, 210, 211, 208, 209, 210, 211]
    );
    let position = &mesh.attribute(POSITION.id).unwrap().bytes;
    assert_eq!(position.len(), 60);
    assert_eq!(&position[0..12], &numbered(24, 12)[..]);
    assert_eq!(&position[12..24], &numbered(0, 12)[..]);
    assert_eq!(&position[48..60], &numbered(24, 12)[..]);
    assert_eq!(mesh.attribute(UV_0.id).unwrap().format, VertexFormat::Float32x2);
}

#[test]
fn index_bytes_are_in_the_byte_order_of_the_machine() {
    let mut mesh = triangle();
    assert!(mesh.get_index_buffer_bytes().is_none());
    mesh.set_indices(Some(Indices::U16(vec![1, 0x0203])));
    let mut expected = Vec::new();
    expected.extend(1u16.to_ne_bytes());
    expected.extend(0x0203u16.to_ne_bytes());
    assert_eq!(mesh.get_index_buffer_bytes().unwrap(), &expected[..]);
    let long = Indices::U32(vec![0x0102_0304, 7]);
    let mut expected = Vec::new();
    expected.extend(0x0102_0304u32.to_ne_bytes());
    expected.extend(7u32.to_ne_bytes());
    assert_eq!(long.get_bytes(), &expected[..]);
    assert_eq!(long.index_format(), IndexFormat::Uint32);
    assert_eq!(Indices::U16(Vec::new()).index_format(), IndexFormat::Uint16);
    assert_eq!(Indices::U16(Vec::new()).get_bytes().len(), 0);
}

#[test]
fn a_morph_target_row_pads_each_displacement_to_a_pixel() {
    let mut data = vec![9];
    write_morph_target_row(&Some(numbered(1, 24)), &mut data, 3);
    let mut expected = vec![9];
    expected.extend(numbered(1, 12));
    expected.extend([0; 4]);
    expected.extend(numbered(13, 12));
    expected.extend([0; 4]);
    expected.extend([0; 16]);
    assert_eq!(data, expected);
    let mut none = Vec::new();
    write_morph_target_row(&None, &mut none, 2);
    assert_eq!(none, vec![0; 32]);
    // displacements beyond the width are left out
    let mut narrow = Vec::new();
    write_morph_target_row(&Some(numbered(1, 24)), &mut narrow, 1);
    assert_eq!(narrow.len(), 16);
    assert_eq!(&narrow[0..12], &numbered(1, 12)[..]);
}

#[test]
fn the_morph_target_image_has_three_rows_for_each_target() {
    let mut mesh = triangle();
    assert!(mesh.create_morph_target_image().is_none());
    mesh.add_morph_target().position_displacement = Some(numbered(1, 36));
    {
        let second = mesh.add_morph_target();
        second.normal_displacement = Some(numbered(101, 36));
        second.tangent_displacement = Some(numbered(201, 12));
    }
    let image = mesh.create_morph_target_image().unwrap();
    assert_eq!((image.width, image.height), (3, 6));
    assert_eq!(image.data.len(), 3 * 6 * 16);
    let pixel = |row: usize, p: usize| &image.data[(row * 3 + p) * 16..(row * 3 + p + 1) * 16];
    let mut first = numbered(1, 12);
    first.extend([0; 4]);
    assert_eq!(pixel(0, 0), &first[..]);
    assert_eq!(&pixel(0, 2)[0..12], &numbered(25, 12)[..]);
    assert_eq!(pixel(1, 0), &[0; 16]);
    assert_eq!(pixel(2, 2), &[0; 16]);
    assert_eq!(pixel(3, 1), &[0; 16]);
    assert_eq!(&pixel(4, 1)[0..12], &numbered(113, 12)[..]);
    assert_eq!(&pixel(5, 0)[0..12], &numbered(201, 12)[..]);
    assert_eq!(pixel(5, 1), &[0; 16]);
}
