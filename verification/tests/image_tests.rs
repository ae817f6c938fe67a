use knn_core::mnist_data::{Image, ImageIterator, Grid, image_mean, discard};
use knn_core::euclidean_distance::euclidean_distance;
use knn_core::pyramid::Pyramid;

#[test]
fn test_img() {
    let mut img = Image::new();
    assert_eq!(0, img.side());
    img.add(10);
    assert_eq!(1, img.side());
    assert_eq!(10, img.get(0, 0));
    img.add(20);
    assert_eq!(2, img.side());
    assert_eq!(20, img.get(1, 0));
    img.add(30);
    assert_eq!(2, img.side());
    assert_eq!(30, img.get(0, 1));
    img.add(40);
    assert_eq!(2, img.side());
    assert_eq!(40, img.get(1, 1));
    img.add(50);
    assert_eq!(3, img.side());
    assert_eq!(30, img.get(2, 0));
    assert_eq!(40, img.get(0, 1));
    assert_eq!(50, img.get(1, 1));
}

fn drain(mut it: ImageIterator) -> Vec<(isize, isize)> {
    let mut result = Vec::new();
    while let Some(p) = it.next() {
        result.push(p);
    }
    result
}

#[test]
fn test_x_y_iterator_1() {
    let iterated: Vec<(isize, isize)> = drain(ImageIterator::new(0, 0, 2, 3, 1));
    let reference: Vec<(isize, isize)> = vec![(0, 0), (1, 0), (0, 1), (1, 1), (0, 2), (1, 2)];
    assert_eq!(iterated.len(), reference.len());
    for i in 0..reference.len() {
        assert_eq!(reference[i], iterated[i]);
    }
}

#[test]
fn test_x_y_iterator_2() {
    let iterated: Vec<(isize, isize)> = drain(ImageIterator::new(-1, -1, 2, 2, 1));
    let reference: Vec<(isize, isize)> = vec![(-1, -1), (0, -1), (-1, 0), (0, 0)];
    assert_eq!(iterated.len(), reference.len());
    for i in 0..reference.len() {
        assert_eq!(reference[i], iterated[i]);
    }
}

fn same_image(a: &Image, b: &Image) -> bool {
    if a.side() != b.side() || a.len() != b.len() {
        return false;
    }
    for p in 0..a.len() {
        if a.pixel_at(p) != b.pixel_at(p) {
            return false;
        }
    }
    true
}

#[test]
fn test_subimage() {
    let v: Vec<u8> = (1..16).collect();
    let img = Image::from_vec(&v);
    let sub = img.subimage(1, 1, 3);
    let ref_sub = Image::from_vec(&vec![1, 2, 3, 5, 6, 7, 9, 10, 11]);
    assert!(same_image(&ref_sub, &sub));
}

#[test]
fn test_values() {
    let img1 = Image::from_vec(&vec![1, 2, 3, 4, 5, 6, 7, 8, 9]);
    let img2 = Image::from_vec(&vec![9, 8, 7, 6, 5, 4, 3, 2, 1]);
    assert_eq!(2 * (64 + 36 + 16 + 4), euclidean_distance(&img1, &img2));
}

#[test]
fn test_image_mean_exact() {
    let img1 = Image::from_vec(&vec![0, 10, 20, 30]);
    let img2 = Image::from_vec(&vec![10, 10, 30, 31]);
    let m = image_mean(&vec![img1, img2]);
    assert_eq!(5, m.pixel_at(0));
    assert_eq!(10, m.pixel_at(1));
    assert_eq!(25, m.pixel_at(2));
    assert_eq!(30, m.pixel_at(3));
}

#[test]
fn test_pixel_mean() {
    let img = Image::from_vec(&vec![1, 2, 3, 4]);
    assert_eq!(2, img.pixel_mean());
}

#[test]
fn test_permuted() {
    let img = Image::from_vec(&vec![10, 20, 30, 40]);
    let perm: Vec<usize> = vec![3, 2, 1, 0];
    let p = img.permuted(&perm);
    assert_eq!(40, p.pixel_at(0));
    assert_eq!(30, p.pixel_at(1));
    assert_eq!(20, p.pixel_at(2));
    assert_eq!(10, p.pixel_at(3));
}

#[test]
fn test_discard_keeps_every_other() {
    let imgs: Vec<(u8, Image)> = vec![
        (0, Image::from_vec(&vec![1])),
        (1, Image::from_vec(&vec![2])),
        (2, Image::from_vec(&vec![3])),
        (3, Image::from_vec(&vec![4])),
        (4, Image::from_vec(&vec![5])),
    ];
    let kept = discard(&imgs, 2);
    assert_eq!(3, kept.len());
    assert_eq!(0, kept[0].0);
    assert_eq!(2, kept[1].0);
    assert_eq!(4, kept[2].0);
}

#[test]
fn test_pyramid_levels() {
    let v: Vec<u8> = (0..16).collect();
    let img = Image::from_vec(&v);
    let pyr = Pyramid::new(&img);
    assert_eq!(2, pyr.levels());
}
