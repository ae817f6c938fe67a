//! The verified core of a nearest-neighbor image-classification bench: a
//! packed bit sequence with fast Hamming distance, an insertion-ordered
//! histogram, a k-means clustering engine and a k-nearest-neighbor classifier
//! that are generic over a metric space, and the feature extractors (image
//! grids, BRIEF descriptors, patches, pyramids, convolution-style kernels)
//! that feed them.  Randomness and file handling sit outside: random draws
//! reach the library through two trusted wrappers whose contracts state only
//! the range of the result, and datasets reach it as plain byte values.

pub mod bits;
pub mod hash_histogram;
pub mod space;
pub mod sampling;
pub mod kmeans;
pub mod training_harness;
pub mod knn;
pub mod mnist_data;
pub mod euclidean_distance;
pub mod pyramid;
pub mod convolutional;
pub mod brief;
pub mod patch;
pub mod brief_convolutional;
