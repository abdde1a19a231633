//! A fixed-capacity, open-addressed hash table that lives inside one byte
//! buffer owned by the caller: a header at offset 0, followed by an array of
//! equally sized buckets.

pub mod header;
pub mod laws;
pub mod layout;
pub mod map;

pub use header::{read_header, BucketStatus, MapHeader, SECRET_CODE};
pub use layout::{calculate_bucket_layout, layout, total_size, BucketLayout, MapInit};
pub use map::{
    find_next_valid_entry, get_or_reserve_entry, get_or_reserve_hashed, has, has_hashed, init,
    lookup, lookup_hashed, overwrite, remove, remove_hashed, END_OF_ENTRIES,
};
