use knn_core::mnist_data::{Image, Grid};
use knn_core::brief_convolutional::{to_kernelized, real_distance, image_mean, BitImage};
use knn_core::bits::from_bools;
use knn_core::convolutional::{extract_kernels_from, pixelize, scale, apply_kernel_to, project_through};
use knn_core::brief::Descriptor;
use knn_core::patch::patchify;

#[test]
fn test_kernels() {
    let v: Vec<u8> = (1..10).collect();
    let img = Image::from_vec(&v);
    let filters = extract_kernels_from(&vec![img], 4, 2);
    let filter_means: Vec<u8> = filters.iter().map(|f| f.pixel_mean()).collect();

    let target_means_1: Vec<u8> = vec![3, 0, 6, 1];
    let target_means_2: Vec<u8> = vec![3, 0, 6, 7];
    assert!(
        test_filter_means(&target_means_1, &filter_means) || test_filter_means(
            &target_means_2,
            &filter_means,
        )
    );
}

fn test_filter_means(target_means: &Vec<u8>, filter_means: &Vec<u8>) -> bool {
    for mean in filter_means.iter() {
        if !target_means.contains(mean) && !target_means.contains(&(mean - 1))
            && !target_means.contains(&(mean + 1)) {
            return false;
        }
    }
    true
}

#[test]
fn test_pixelize_values() {
    assert_eq!(0, pixelize(0));
    assert_eq!(3, pixelize(9));
    assert_eq!(255, pixelize(765));
    assert_eq!(255, pixelize(10_000));
}

// The original exercises `scale` on one more, fractional input; the response
// scale here is defined over integer distances, so that case has no
// counterpart.
#[test]
fn test_scale() {
    assert_eq!(0, scale(100, 50, 100));
    assert_eq!(255, scale(50, 50, 100));
    assert_eq!(0, scale(5, 5, 5));
}

#[test]
fn test_projection() {
    let v: Vec<u8> = (1..10).collect();
    let img = Image::from_vec(&v);
    let k1: Vec<u8> = (0..4).collect();
    let k2: Vec<u8> = (6..10).collect();
    let kernels = vec![Image::from_vec(&k1), Image::from_vec(&k2)];
    let projections = project_through(&img, &kernels, 1);
    let targets = vec![
        Image::from_vec(&vec![245, 252, 255, 250, 244, 224, 221, 157, 109]),
        Image::from_vec(&vec![0, 36, 67, 62, 157, 196, 120, 244, 253]),
    ];
    assert_eq!(projections.len(), targets.len());
    for i in 0..targets.len() {
        assert!(images_match(&targets[i], &projections[i]));
    }
}

fn images_match(a: &Image, b: &Image) -> bool {
    if a.side() != b.side() || a.len() != b.len() {
        return false;
    }
    for p in 0..a.len() {
        if a.pixel_at(p) != b.pixel_at(p) {
            return false;
        }
    }
    true
}

#[test]
fn test_project_through_scaling() {
    let src = Image::from_vec(&vec![0, 0, 0, 255]);
    let kernel = Image::from_vec(&vec![0]);
    let out = project_through(&src, &vec![kernel], 1);
    assert_eq!(1, out.len());
    // The three zero-distance windows scale to 255, the farthest to 0.
    assert_eq!(255, out[0].get(0, 0));
    assert_eq!(255, out[0].get(1, 0));
    assert_eq!(255, out[0].get(0, 1));
    assert_eq!(0, out[0].get(1, 1));
}

#[test]
fn test_apply_kernel_shape() {
    let v: Vec<u8> = (1..10).collect();
    let img = Image::from_vec(&v);
    let kernel = Image::from_vec(&vec![0, 0, 0, 0, 0, 0, 0, 0, 0]);
    let out = apply_kernel_to(&img, &kernel);
    assert_eq!(2, out.side());
    assert_eq!(4, out.len());
    // The window at (0, 0) reads [0,0,0, 0,1,2, 0,4,5]: squared sum 46.
    assert_eq!(pixelize(46), out.get(0, 0));
}

#[test]
fn test_descriptor_apply() {
    let img = Image::from_vec(&vec![9, 1, 2, 8]);
    let mut d = Descriptor::new_empty(2, 2);
    d.add_pair(0, 0, 1, 0);
    d.add_pair(1, 0, 0, 1);
    let bits = d.apply_to(&img);
    assert_eq!(2, bits.len());
    assert!(!bits.is_set(0));
    assert!(bits.is_set(1));
}

#[test]
fn test_uniform_descriptor_sizes() {
    let d = Descriptor::classic_uniform_brief(16, 5, 5);
    assert_eq!(5, d.width());
    assert_eq!(5, d.height());
    let n = Descriptor::uniform_neighbor(2, 3, 3);
    let img = Image::from_vec(&vec![0, 1, 2, 3, 4, 5, 6, 7, 8]);
    let bits = n.apply_to(&img);
    assert_eq!(18, bits.len());
}

#[test]
fn test_patchify_bits() {
    let img = Image::from_vec(&vec![5, 0, 0, 0]);
    let bits = patchify(&img, 1);
    // A one-cell patch compares each pixel with itself: never strictly greater.
    assert_eq!(4, bits.len());
    assert_eq!(0, bits.count_bits_on());
}

#[test]
fn test_bit_image_pipeline() {
    let v: Vec<u8> = vec![9, 1, 2, 8];
    let img = Image::from_vec(&v);
    // 4 pixels with a 3x3 patch each: 36 bits, a full 6-by-6 bit image.
    let stacks = to_kernelized(&img, 1, 2);
    assert_eq!(2, stacks.len());
    for s in stacks.iter() {
        assert_eq!(3, s.side());
        assert_eq!(9, s.len());
    }

    let a = BitImage::from(&from_bools(&vec![true, true, false, false]));
    let b = BitImage::from(&from_bools(&vec![true, false, true, false]));
    assert_eq!(2, real_distance(&a, &b));

    let c = BitImage::from(&from_bools(&vec![true, false, false, false]));
    let m = image_mean(&vec![a, b, c]);
    assert!(m.bit_at(0));
    assert!(!m.bit_at(1));
    assert!(!m.bit_at(2));
    assert!(!m.bit_at(3));
}

#[test]
fn test_majority_image() {
    let img = Image::from_vec(&vec![9, 1, 2, 8]);
    let mut d = Descriptor::new_empty(2, 2);
    d.add_pair(0, 0, 1, 0);
    d.add_pair(0, 0, 0, 1);
    d.add_pair(1, 1, 0, 0);
    let bits = d.majority_image(&img);
    assert_eq!(4, bits.len());
    assert!(!bits.is_set(0));
    assert!(!bits.is_set(1));
    assert!(!bits.is_set(2));
    assert!(bits.is_set(3));
}
