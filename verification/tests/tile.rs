use hayro_jpeg2000::j2c::codestream::{
    CodeBlockStyle, CodingStyleComponent, CodingStyleDefault, CodingStyleFlags, CodingStyleParameters,
    ComponentInfo, ComponentSizeInfo, Header, ProgressionOrder, QuantizationInfo, QuantizationStyle,
    SizeData, WaveletTransform,
};
use hayro_jpeg2000::j2c::tile::{ComponentTile, Tile};

fn dummy_parameters() -> CodingStyleParameters {
    CodingStyleParameters {
        num_decomposition_levels: 0,
        num_resolution_levels: 0,
        code_block_width: 0,
        code_block_height: 0,
        code_block_style: CodeBlockStyle::default(),
        transformation: WaveletTransform::Irreversible97,
        precinct_exponents: vec![],
    }
}

fn dummy_quantization() -> QuantizationInfo {
    QuantizationInfo {
        quantization_style: QuantizationStyle::NoQuantization,
        guard_bits: 0,
        step_sizes: vec![],
    }
}

/// Test case for the example in B.4.
#[test]
fn test_jpeg2000_standard_example_b4() {
    let component_size_info_0 = ComponentSizeInfo {
        precision: 8,
        horizontal_resolution: 1,
        vertical_resolution: 1,
    };

    let component_info_0 = ComponentInfo {
        size_info: component_size_info_0,
        coding_style: CodingStyleComponent {
            flags: CodingStyleFlags::default(),
            parameters: dummy_parameters(),
        },
        quantization_info: dummy_quantization(),
    };

    let component_size_info_1 = ComponentSizeInfo {
        precision: 8,
        horizontal_resolution: 2,
        vertical_resolution: 2,
    };

    let component_info_1 = ComponentInfo {
        size_info: component_size_info_1,
        coding_style: CodingStyleComponent {
            flags: CodingStyleFlags::default(),
            parameters: dummy_parameters(),
        },
        quantization_info: dummy_quantization(),
    };

    let size_data = SizeData {
        reference_grid_width: 1432,
        reference_grid_height: 954,
        image_area_x_offset: 152,
        image_area_y_offset: 234,
        tile_width: 396,
        tile_height: 297,
        tile_x_offset: 0,
        tile_y_offset: 0,
        component_sizes: vec![component_size_info_0, component_size_info_1],
        x_shrink_factor: 1,
        y_shrink_factor: 1,
        x_resolution_shrink_factor: 1,
        y_resolution_shrink_factor: 1,
    };

    assert_eq!(size_data.image_width(), 1280);
    assert_eq!(size_data.image_height(), 720);

    assert_eq!(size_data.num_x_tiles(), 4);
    assert_eq!(size_data.num_y_tiles(), 4);
    assert_eq!(size_data.num_tiles(), 16);

    let header = Header {
        size_data,
        // Just dummy values.
        global_coding_style: CodingStyleDefault {
            progression_order: ProgressionOrder::LayerResolutionComponentPosition,
            num_layers: 0,
            mct: false,
            component_parameters: CodingStyleComponent {
                flags: Default::default(),
                parameters: dummy_parameters(),
            },
        },
        component_infos: vec![],
        ppm_packets: vec![],
        skipped_resolution_levels: 0,
        strict: false,
    };

    let tile_0_0 = Tile::new(0, &header);
    let coords_0_0 = ComponentTile::new(&tile_0_0, &component_info_0).rect;
    assert_eq!(coords_0_0.x0, 152);
    assert_eq!(coords_0_0.y0, 234);
    assert_eq!(coords_0_0.x1, 396);
    assert_eq!(coords_0_0.y1, 297);
    assert_eq!(coords_0_0.width(), 244);
    assert_eq!(coords_0_0.height(), 63);

    let tile_1_0 = Tile::new(1, &header);
    let coords_1_0 = ComponentTile::new(&tile_1_0, &component_info_0).rect;
    assert_eq!(coords_1_0.x0, 396);
    assert_eq!(coords_1_0.y0, 234);
    assert_eq!(coords_1_0.x1, 792);
    assert_eq!(coords_1_0.y1, 297);
    assert_eq!(coords_1_0.width(), 396);
    assert_eq!(coords_1_0.height(), 63);

    let tile_0_1 = Tile::new(4, &header);
    let coords_0_1 = ComponentTile::new(&tile_0_1, &component_info_0).rect;
    assert_eq!(coords_0_1.x0, 152);
    assert_eq!(coords_0_1.y0, 297);
    assert_eq!(coords_0_1.x1, 396);
    assert_eq!(coords_0_1.y1, 594);
    assert_eq!(coords_0_1.width(), 244);
    assert_eq!(coords_0_1.height(), 297);

    let tile_1_1 = Tile::new(5, &header);
    let coords_1_1 = ComponentTile::new(&tile_1_1, &component_info_0).rect;
    assert_eq!(coords_1_1.x0, 396);
    assert_eq!(coords_1_1.y0, 297);
    assert_eq!(coords_1_1.x1, 792);
    assert_eq!(coords_1_1.y1, 594);
    assert_eq!(coords_1_1.width(), 396);
    assert_eq!(coords_1_1.height(), 297);

    let tile_3_3 = Tile::new(15, &header);
    let coords_3_3 = ComponentTile::new(&tile_3_3, &component_info_0).rect;
    assert_eq!(coords_3_3.x0, 1188);
    assert_eq!(coords_3_3.y0, 891);
    assert_eq!(coords_3_3.x1, 1432);
    assert_eq!(coords_3_3.y1, 954);
    assert_eq!(coords_3_3.width(), 244);
    assert_eq!(coords_3_3.height(), 63);

    let tile_0_0_comp1 = ComponentTile::new(&tile_0_0, &component_info_1).rect;
    assert_eq!(tile_0_0_comp1.x0, 76);
    assert_eq!(tile_0_0_comp1.y0, 117);
    assert_eq!(tile_0_0_comp1.x1, 198);
    assert_eq!(tile_0_0_comp1.y1, 149);
    assert_eq!(tile_0_0_comp1.width(), 122);
    assert_eq!(tile_0_0_comp1.height(), 32);

    let tile_1_0_comp1 = ComponentTile::new(&tile_1_0, &component_info_1).rect;
    assert_eq!(tile_1_0_comp1.x0, 198);
    assert_eq!(tile_1_0_comp1.y0, 117);
    assert_eq!(tile_1_0_comp1.x1, 396);
    assert_eq!(tile_1_0_comp1.y1, 149);
    assert_eq!(tile_1_0_comp1.width(), 198);
    assert_eq!(tile_1_0_comp1.height(), 32);

    let tile_0_1_comp1 = ComponentTile::new(&tile_0_1, &component_info_1).rect;
    assert_eq!(tile_0_1_comp1.x0, 76);
    assert_eq!(tile_0_1_comp1.y0, 149);
    assert_eq!(tile_0_1_comp1.x1, 198);
    assert_eq!(tile_0_1_comp1.y1, 297);
    assert_eq!(tile_0_1_comp1.width(), 122);
    assert_eq!(tile_0_1_comp1.height(), 148);

    let tile_1_1_comp1 = ComponentTile::new(&tile_1_1, &component_info_1).rect;
    assert_eq!(tile_1_1_comp1.x0, 198);
    assert_eq!(tile_1_1_comp1.y0, 149);
    assert_eq!(tile_1_1_comp1.x1, 396);
    assert_eq!(tile_1_1_comp1.y1, 297);
    assert_eq!(tile_1_1_comp1.width(), 198);
    assert_eq!(tile_1_1_comp1.height(), 148);

    let tile_2_1 = Tile::new(6, &header);
    let tile_2_1_comp1 = ComponentTile::new(&tile_2_1, &component_info_1).rect;
    assert_eq!(tile_2_1_comp1.x0, 396);
    assert_eq!(tile_2_1_comp1.y0, 149);
    assert_eq!(tile_2_1_comp1.x1, 594);
    assert_eq!(tile_2_1_comp1.y1, 297);
    assert_eq!(tile_2_1_comp1.width(), 198);
    assert_eq!(tile_2_1_comp1.height(), 148);

    assert_eq!(tile_1_1_comp1.width(), tile_2_1_comp1.width());
    assert_eq!(tile_1_1_comp1.height(), tile_2_1_comp1.height());
}
