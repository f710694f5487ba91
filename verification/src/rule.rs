pub mod must_be_inside;
pub mod must_not_be_multipart;
pub mod must_not_have_dangles;
pub mod must_not_have_gaps;
pub mod must_not_intersect;
pub mod must_not_overlap;
