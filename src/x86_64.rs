//! Structures of the x86-64 four-level paging scheme.
mod page_table;
mod recursive_mapper;
mod table_memory;

pub use page_table::{
    flag_mask, lemma_address_round_trip, lemma_flag_round_trip, valid_frame_address, with_address,
    with_avail, with_flag, word_address, word_avail, word_flag, Bit, Entry, PageTable,
    ADDRESS_MASK, AVAIL_MASK, TABLE_ENTRIES,
};
pub use recursive_mapper::{
    canonical_cleared, lemma_canonical_masking, lemma_huge_entry_blocks,
    lemma_walk_from_empty_root, lemma_walk_twice, leads_down, link_word, linked_frame, locates,
    path_blocked, path_in_memory, path_reaches, path_table, path_word, reach_level, span,
    table_index, tables_needed, valid_request, word_at, FrameAllocator, RecursiveMapper,
    CANONICAL_MASK, PT1_SPAN, PT2_SPAN, PT3_SPAN, PT4_SPAN,
};
pub use table_memory::{frame_slot, zero_table, EntryRef, TableMemory, PAGE_SIZE};
