mod file;
mod memfs;
mod path;
mod vfs;

pub use file::{
    handle_read, handle_write, handle_write_fits, lemma_options_of_flags_grant_access,
    options_of_flags, write_pos, File, FileHandle, FileLike, HandleView, OpenFlags, OpenOptions,
    O_ALL, O_APPEND, O_CREATE, O_RDWR, O_TRUNCATE, O_WRONLY,
};
pub use memfs::{
    empty_inode, fill_front, fs_create, fs_find, fs_read, fs_resize, fs_unlink, fs_valid, fs_write,
    lemma_create_existing, lemma_create_keeps_entries, lemma_created_inode_is_empty, lemma_dir_size_after, lemma_create_then_find, lemma_create_valid,
    lemma_unlink_then_find, write_fits, MemFS, MemInode,
};
pub use path::{
    components, dot, dot_dot, first_slash, first_slash_from, last_slash_before,
    lemma_components_dot_suffix, lemma_components_join, lemma_components_leading_slash,
    lemma_components_single, lemma_components_slash_tail, lemma_components_trim_end,
    lemma_components_well_formed, lemma_last_slash_before, lemma_trim_end_slashes, root_path,
    split_parent, split_parent_spec, trim_end_slashes, PathCursor,
};
pub use vfs::{
    file_read, file_resize, file_write, inode_run, inode_step, is_listing, lemma_listing_unique,
    lemma_read_after_truncate, lemma_read_after_write, lemma_resize, lemma_run_keeps_file_type,
    lemma_sorted_names_unique, lemma_unlink_undoes_create, lemma_write_keeps_other_bytes, name_lt,
    sorted_names, FileType, Inode, InodeId, InodeOp, InodeView, Metadata,
};
