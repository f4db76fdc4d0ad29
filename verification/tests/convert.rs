use argos::convert::{
    chroma_u, chroma_v, image_fits, luma, rgba_to_i420, rgba_to_i420_scaled, scaling_fits,
};

fn reference(rgba: &[u8], width: usize, height: usize) -> Vec<u8> {
    let y_len = width * height;
    let uv_len = (width / 2) * (height / 2);
    let mut planes = vec![0u8; y_len + uv_len + uv_len];
    let (y, rest) = planes.split_at_mut(y_len);
    let (u, v) = rest.split_at_mut(uv_len);
    for row in 0..height / 2 {
        for col in 0..width / 2 {
            let mut sum = [0u32; 3];
            for oy in 0..2 {
                for ox in 0..2 {
                    let px = col * 2 + ox;
                    let py = row * 2 + oy;
                    let base = (py * width + px) * 4;
                    let r = rgba[base] as f32;
                    let g = rgba[base + 1] as f32;
                    let b = rgba[base + 2] as f32;
                    sum[0] += rgba[base] as u32;
                    sum[1] += rgba[base + 1] as u32;
                    sum[2] += rgba[base + 2] as u32;
                    let y_val = 0.2578125 * r + 0.50390625 * g + 0.09765625 * b + 16.0;
                    y[py * width + px] = y_val as u8;
                }
            }
            let ar = sum[0] as f32 / 4.0;
            let ag = sum[1] as f32 / 4.0;
            let ab = sum[2] as f32 / 4.0;
            let idx = row * (width / 2) + col;
            let u_val = -0.1484375 * ar - 0.2890625 * ag + 0.4375 * ab + 128.0;
            let v_val = 0.4375 * ar - 0.3671875 * ag - 0.0703125 * ab + 128.0;
            u[idx] = u_val as u8;
            v[idx] = v_val as u8;
        }
    }
    planes
}

#[test]
fn integer_conversion_matches_float_reference() {
    let width = 32;
    let height = 16;
    let mut rgba = vec![0u8; width * height * 4];
    for (i, byte) in rgba.iter_mut().enumerate() {
        *byte = ((i * 97 + 13) % 251) as u8;
    }
    let mut actual = Vec::new();
    rgba_to_i420(&rgba, width, height, &mut actual);
    let expected = reference(&rgba, width, height);
    assert_eq!(actual.len(), expected.len());
    let max_diff = actual
        .iter()
        .zip(&expected)
        .map(|(a, b)| (*a as i32 - *b as i32).abs())
        .max()
        .unwrap_or(0);
    assert!(max_diff <= 1, "max difference {max_diff}");
}

#[test]
fn scaled_conversion_averages_source_blocks() {
    let src_width = 8;
    let src_height = 4;
    let mut rgba = vec![0u8; src_width * src_height * 4];
    for (i, byte) in rgba.iter_mut().enumerate() {
        *byte = ((i * 53 + 7) % 251) as u8;
    }
    let dst_width = 4;
    let dst_height = 2;
    let mut planes = Vec::new();
    rgba_to_i420_scaled(
        &rgba,
        src_width,
        src_height,
        dst_width,
        dst_height,
        &mut planes,
    );
    assert_eq!(planes.len(), dst_width * dst_height * 3 / 2);

    for dst_y in 0..dst_height {
        for dst_x in 0..dst_width {
            let mut sum = [0i32; 3];
            for oy in 0..2 {
                for ox in 0..2 {
                    let base = ((dst_y * 2 + oy) * src_width + dst_x * 2 + ox) * 4;
                    sum[0] += rgba[base] as i32;
                    sum[1] += rgba[base + 1] as i32;
                    sum[2] += rgba[base + 2] as i32;
                }
            }
            let expected = luma(sum[0] / 4, sum[1] / 4, sum[2] / 4);
            let actual = planes[dst_y * dst_width + dst_x];
            assert!(
                (actual as i32 - expected as i32).abs() <= 1,
                "luma mismatch at {dst_x},{dst_y}: {actual} vs {expected}"
            );
        }
    }
}

fn filled(width: usize, height: usize, colour: [u8; 4]) -> Vec<u8> {
    let mut rgba = Vec::new();
    for _ in 0..width * height {
        rgba.extend_from_slice(&colour);
    }
    rgba
}

#[test]
fn luma_of_black_and_white() {
    assert_eq!(luma(0, 0, 0), 16);
    assert_eq!(luma(255, 255, 255), 235);
    assert_eq!(luma(255, 0, 0), 82);
    assert_eq!(luma(0, 255, 0), 144);
    assert_eq!(luma(0, 0, 255), 41);
}

#[test]
fn chroma_of_the_primaries() {
    assert_eq!(chroma_u(0, 0, 255), 240);
    assert_eq!(chroma_u(255, 0, 0), 90);
    assert_eq!(chroma_v(255, 0, 0), 240);
    assert_eq!(chroma_v(0, 255, 0), 34);
    assert_eq!(chroma_u(77, 77, 77), 128);
    assert_eq!(chroma_v(77, 77, 77), 128);
}

#[test]
fn luma_is_within_half_a_step() {
    for (r, g, b) in [(0, 0, 0), (12, 200, 7), (255, 255, 254), (99, 3, 180)] {
        let exact = 66 * r + 129 * g + 25 * b;
        let error = 256 * (luma(r, g, b) as i32 - 16) - exact;
        assert!((-128..=128).contains(&error));
        let blue = 256 * (chroma_u(r, g, b) as i32 - 128) - (-38 * r - 74 * g + 112 * b);
        assert!((-128..=128).contains(&blue));
        let red = 256 * (chroma_v(r, g, b) as i32 - 128) - (112 * r - 94 * g - 18 * b);
        assert!((-128..=128).contains(&red));
    }
}

#[test]
fn white_image_has_flat_planes() {
    let rgba = filled(4, 2, [255, 255, 255, 0]);
    let mut planes = vec![9u8; 100];
    rgba_to_i420(&rgba, 4, 2, &mut planes);
    assert_eq!(planes, vec![235, 235, 235, 235, 235, 235, 235, 235, 128, 128, 128, 128]);
}

#[test]
fn odd_edges_stay_zero() {
    let rgba = filled(3, 3, [255, 255, 255, 255]);
    let mut planes = Vec::new();
    rgba_to_i420(&rgba, 3, 3, &mut planes);
    assert_eq!(planes, vec![235, 235, 0, 235, 235, 0, 0, 0, 0, 128, 128]);
}

#[test]
fn scaling_to_the_same_size_keeps_the_luma() {
    let mut rgba = vec![0u8; 8 * 4 * 4];
    for (i, byte) in rgba.iter_mut().enumerate() {
        *byte = ((i * 31 + 5) % 256) as u8;
    }
    let mut plain = Vec::new();
    rgba_to_i420(&rgba, 8, 4, &mut plain);
    let mut scaled = Vec::new();
    rgba_to_i420_scaled(&rgba, 8, 4, 8, 4, &mut scaled);
    assert_eq!(plain[..32], scaled[..32]);
}

#[test]
fn enlarging_repeats_pixels() {
    let rgba = [255, 255, 255, 255, 0, 0, 0, 255];
    let mut planes = Vec::new();
    rgba_to_i420_scaled(&rgba, 2, 1, 4, 2, &mut planes);
    assert_eq!(planes[..8], [235, 235, 16, 16, 235, 235, 16, 16]);
    assert_eq!(planes[8..], [128, 128, 128, 128]);
}

#[test]
fn ordinary_scalings_fit() {
    assert!(scaling_fits(3840, 2160, 1280, 720));
    assert!(scaling_fits(0, 0, 2, 2));
    assert!(!scaling_fits(usize::MAX, 2, 4, 2));
    assert!(!scaling_fits(100_000, 100_000, 2, 2));
    assert!(!scaling_fits(2, 2, usize::MAX, 2));
}

#[test]
fn dark_images_fit_where_bright_ones_do_not() {
    let width = 16_843_012;
    let mut rgba = vec![100; width * 4];
    assert!(!scaling_fits(width, 1, 2, 2));
    assert!(image_fits(&rgba, width, 1, 2, 2));
    let mut planes = Vec::new();
    rgba_to_i420_scaled(&rgba, width, 1, 2, 2, &mut planes);
    assert_eq!(planes, vec![102, 102, 102, 102, 128, 128]);
    rgba.fill(255);
    assert!(!image_fits(&rgba, width, 1, 2, 2));
}

#[test]
fn images_fit_where_their_size_does() {
    assert!(image_fits(&[255; 64], 4, 4, 2, 2));
    assert!(image_fits(&[], 0, 0, 2, 2));
    assert!(!image_fits(&[], 0, 0, usize::MAX, 2));
}
