//! Heap smoke test.  Setting up the heap itself (the global allocator over
//! a static buffer) is the boot code's part; this module checks that
//! `Box`, `Vec` and `String` work once it is done.

use vstd::prelude::*;

use crate::text;

verus! {

/// One mebibyte of kernel heap.
pub const HEAP_SIZE: usize = 1048576;

/// Runs a small allocation test with `Box`, `Vec` and `String`; without an
/// initialized heap it refuses to allocate at all.
pub fn memtest(heap_initialized: bool) -> (r: Result<(), &'static str>)
    ensures
        heap_initialized ==> r is Ok,
        !heap_initialized ==> r == Err::<(), &'static str>("heap not initialized"),
{
    if !heap_initialized {
        return Err("heap not initialized");
    }

    // Box: a single value on the heap.
    let value = Box::new(42u64);
    if *value != 42 {
        return Err("Box value mismatch");
    }

    // Vec: a growable heap buffer.
    let mut numbers: Vec<u64> = Vec::new();
    let mut index: u64 = 0;
    while index < 128
        invariant
            index <= 128,
            numbers@.len() == index,
            forall|i: int| 0 <= i < index ==> numbers@[i] == i,
        decreases 128 - index,
    {
        numbers.push(index);
        index = index + 1;
    }
    if numbers.len() != 128 || numbers[64] != 64 {
        return Err("Vec push/read failed");
    }

    // String: UTF-8 text on the heap.
    let mut label = String::from_str("TuwaiqOS");
    label.append(" ");
    label.append("heap");
    proof {
        reveal_strlit("TuwaiqOS");
        reveal_strlit(" ");
        reveal_strlit("heap");
        reveal_strlit("TuwaiqOS heap");
        assert(label@ =~= "TuwaiqOS heap"@);
    }
    if !text::str_eq(label.as_str(), "TuwaiqOS heap") {
        return Err("String content mismatch");
    }
    Ok(())
}

} // verus!
