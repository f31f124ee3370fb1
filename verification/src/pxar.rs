//! The layout of a directory in a pxar archive: where its goodbye table
//! lies, and where the table says that the entries of the directory lie.

use vstd::prelude::*;
use crate::error::Error;

verus! {

/// The size of an item header: its type and its size, eight bytes each.
pub const HEADER_SIZE: u64 = 16;

/// The size of an item of a goodbye table: offset, size and hash, eight
/// bytes each.
pub const GOODBYE_ITEM_SIZE: u64 = 24;

/// The type of an entry item.
pub const CA_FORMAT_ENTRY: u64 = 0x1396fabcea5bbb51;

/// The type of a file name item.
pub const CA_FORMAT_FILENAME: u64 = 0x6dbb6ebcb3161f0b;

/// The type of a goodbye table.
pub const CA_FORMAT_GOODBYE: u64 = 0xdfd35c5e8327c403;

/// The hash of the last item of a goodbye table.
pub const CA_FORMAT_GOODBYE_TAIL_MARKER: u64 = 0x57446fa533702943;

/// The bits of a file mode that tell the kind of the file.
pub const S_IFMT: u32 = 0o170000;

pub const S_IFDIR: u32 = 0o040000;

pub const S_IFREG: u32 = 0o100000;

pub const S_IFLNK: u32 = 0o120000;

pub const S_IFBLK: u32 = 0o060000;

pub const S_IFCHR: u32 = 0o020000;

/// The header of an item.
#[derive(Clone, Copy, Debug, PartialEq, Eq, Structural)]
pub struct CaFormatHeader {
    pub htype: u64,
    pub size: u64,
}

/// An item of a goodbye table.
#[derive(Clone, Copy, Debug, PartialEq, Eq, Structural)]
pub struct CaFormatGoodbyeItem {
    pub offset: u64,
    pub size: u64,
    pub hash: u64,
}

/// Where the goodbye table of a directory lies.
#[derive(Clone, Copy, Debug, PartialEq, Eq, Structural)]
pub struct GoodbyeLayout {
    /// Where the table starts in the archive.
    pub goodbye_start: u64,
    /// The size of the table, header and tail item included.
    pub table_size: u64,
    /// The number of items of the table, the tail item not counted.
    pub count: u64,
}

/// Where the goodbye table of the directory at `start..end` lies, as the
/// last item of the directory says. The directory has to hold at least a
/// header and the tail item; the tail item has to carry the tail marker;
/// the table has to hold whole items, to lie inside the directory, and to
/// start where the tail item says.
pub open spec fn goodbye_layout_spec(start: u64, end: u64, tail: CaFormatGoodbyeItem) -> Option<
    GoodbyeLayout,
> {
    if end < start || end - start < HEADER_SIZE + GOODBYE_ITEM_SIZE {
        None
    } else if tail.hash != CA_FORMAT_GOODBYE_TAIL_MARKER {
        None
    } else if tail.size < HEADER_SIZE + GOODBYE_ITEM_SIZE {
        None
    } else if (tail.size - HEADER_SIZE - GOODBYE_ITEM_SIZE) % (GOODBYE_ITEM_SIZE as int) != 0 {
        None
    } else if tail.size > end - start {
        None
    } else if tail.offset != end - tail.size - start {
        None
    } else {
        Some(
            GoodbyeLayout {
                goodbye_start: (end - tail.size) as u64,
                table_size: tail.size,
                count: ((tail.size - HEADER_SIZE - GOODBYE_ITEM_SIZE) / (
                GOODBYE_ITEM_SIZE as int)) as u64,
            },
        )
    }
}

/// Finds the goodbye table of the directory at `start..end` from the last
/// item of the directory. Fails with `Corrupt` where the item does not
/// describe a table inside the directory.
pub fn goodbye_layout(start: u64, end: u64, tail: &CaFormatGoodbyeItem) -> (r: Result<
    GoodbyeLayout,
    Error,
>)
    ensures
        match goodbye_layout_spec(start, end, *tail) {
            Some(layout) => r == Ok::<GoodbyeLayout, Error>(layout),
            None => r == Err::<GoodbyeLayout, Error>(Error::Corrupt),
        },
{
    if end < start || end - start < HEADER_SIZE + GOODBYE_ITEM_SIZE {
        return Err(Error::Corrupt);
    }
    if tail.hash != CA_FORMAT_GOODBYE_TAIL_MARKER {
        return Err(Error::Corrupt);
    }
    let goodbye_table_size: u64 = tail.size;
    if goodbye_table_size < HEADER_SIZE + GOODBYE_ITEM_SIZE {
        return Err(Error::Corrupt);
    }
    let goodbye_inner_size: u64 = goodbye_table_size - HEADER_SIZE - GOODBYE_ITEM_SIZE;
    if goodbye_inner_size % GOODBYE_ITEM_SIZE != 0 {
        return Err(Error::Corrupt);
    }
    if goodbye_table_size > end - start {
        return Err(Error::Corrupt);
    }
    let goodbye_start: u64 = end - goodbye_table_size;
    if tail.offset != goodbye_start - start {
        return Err(Error::Corrupt);
    }
    Ok(
        GoodbyeLayout {
            goodbye_start,
            table_size: goodbye_table_size,
            count: goodbye_inner_size / GOODBYE_ITEM_SIZE,
        },
    )
}

/// Checks the header of a goodbye table: it has to be that of a goodbye
/// table of the size that the tail item gave. Fails with `Corrupt`
/// otherwise.
pub fn check_goodbye_header(head: &CaFormatHeader, layout: &GoodbyeLayout) -> (r: Result<(), Error>)
    ensures
        r == if head.htype == CA_FORMAT_GOODBYE && head.size == layout.table_size {
            Ok::<(), Error>(())
        } else {
            Err::<(), Error>(Error::Corrupt)
        },
{
    if head.htype != CA_FORMAT_GOODBYE {
        return Err(Error::Corrupt);
    }
    if head.size != layout.table_size {
        return Err(Error::Corrupt);
    }
    Ok(())
}

/// Where the entry lies that an item of a goodbye table names: the item
/// counts its offset back from the start of the table, and the entry has
/// to lie between the start of the directory and the table.
pub open spec fn goodbye_range_spec(start: u64, goodbye_start: u64, item: CaFormatGoodbyeItem) -> Option<
    (u64, u64),
> {
    if goodbye_start < start || item.offset > goodbye_start - start {
        None
    } else if goodbye_start - item.offset + item.size > goodbye_start {
        None
    } else {
        Some(((goodbye_start - item.offset) as u64, (goodbye_start - item.offset + item.size) as u64))
    }
}

/// Where the entry lies that an item of a goodbye table names. Fails with
/// `Corrupt` where the entry would not lie inside the directory.
pub fn goodbye_range(start: u64, goodbye_start: u64, item: &CaFormatGoodbyeItem) -> (r: Result<
    (u64, u64),
    Error,
>)
    ensures
        match goodbye_range_spec(start, goodbye_start, *item) {
            Some(range) => r == Ok::<(u64, u64), Error>(range),
            None => r == Err::<(u64, u64), Error>(Error::Corrupt),
        },
{
    if goodbye_start < start || item.offset > goodbye_start - start {
        return Err(Error::Corrupt);
    }
    let item_start: u64 = goodbye_start - item.offset;
    if item.size > goodbye_start - item_start {
        return Err(Error::Corrupt);
    }
    Ok((item_start, item_start + item.size))
}

/// Where the entries lie that the first `k` items of a goodbye table
/// name, if all of them lie inside the directory.
pub open spec fn goodbye_ranges_spec(
    start: u64,
    goodbye_start: u64,
    items: Seq<CaFormatGoodbyeItem>,
    k: int,
) -> Option<Seq<(u64, u64)>>
    decreases k,
{
    if k <= 0 {
        Some(Seq::empty())
    } else {
        match (
            goodbye_ranges_spec(start, goodbye_start, items, k - 1),
            goodbye_range_spec(start, goodbye_start, items[k - 1]),
        ) {
            (Some(init), Some(range)) => Some(init.push(range)),
            _ => None,
        }
    }
}

/// Once an item names an entry outside the directory, the items behind it
/// do not matter.
pub proof fn lemma_goodbye_ranges_fail(
    start: u64,
    goodbye_start: u64,
    items: Seq<CaFormatGoodbyeItem>,
    k: int,
    j: int,
)
    requires
        0 <= k <= j,
        goodbye_ranges_spec(start, goodbye_start, items, k) is None,
    ensures
        goodbye_ranges_spec(start, goodbye_start, items, j) is None,
    decreases j - k,
{
    if k < j {
        lemma_goodbye_ranges_fail(start, goodbye_start, items, k, j - 1);
    }
}

/// Where the entries of a directory lie, as the items of its goodbye
/// table say. Fails with `Corrupt` at the first item that names an entry
/// outside the directory.
pub fn goodbye_ranges(start: u64, layout: &GoodbyeLayout, items: &Vec<CaFormatGoodbyeItem>) -> (r:
    Result<Vec<(u64, u64)>, Error>)
    ensures
        match goodbye_ranges_spec(start, layout.goodbye_start, items@, items@.len() as int) {
            Some(ranges) => r is Ok && r->Ok_0@ == ranges,
            None => r matches Err(e) && e == Error::Corrupt,
        },
{
    let mut range_list: Vec<(u64, u64)> = Vec::new();
    let mut i: usize = 0;
    while i < items.len()
        invariant
            i <= items.len(),
            goodbye_ranges_spec(start, layout.goodbye_start, items@, i as int) == Some(
                range_list@,
            ),
        decreases items.len() - i,
    {
        match goodbye_range(start, layout.goodbye_start, &items[i]) {
            Ok(range) => {
                range_list.push(range);
            },
            Err(e) => {
                proof {
                    lemma_goodbye_ranges_fail(
                        start,
                        layout.goodbye_start,
                        items@,
                        i + 1,
                        items@.len() as int,
                    );
                }
                return Err(e);
            },
        }
        i += 1;
    }
    Ok(range_list)
}

/// Where the entry of a directory entry starts: behind its file name item.
/// The item at `start` has to be a file name, and the entry has to start
/// inside the archive. Fails with `Corrupt` otherwise.
pub fn filename_entry_start(start: u64, head: &CaFormatHeader) -> (r: Result<u64, Error>)
    ensures
        r == if head.htype == CA_FORMAT_FILENAME && start + head.size <= u64::MAX {
            Ok::<u64, Error>((start + head.size) as u64)
        } else {
            Err::<u64, Error>(Error::Corrupt)
        },
{
    if head.htype != CA_FORMAT_FILENAME {
        return Err(Error::Corrupt);
    }
    match start.checked_add(head.size) {
        Some(entry_start) => Ok(entry_start),
        None => Err(Error::Corrupt),
    }
}

/// The kinds of file that an archive holds.
#[derive(Clone, Copy, Debug, PartialEq, Eq, Structural)]
pub enum FileKind {
    Directory,
    Regular,
    Symlink,
    BlockDevice,
    CharDevice,
}

/// The kind of file that a mode stands for.
pub open spec fn file_kind_spec(mode: u64) -> Option<FileKind> {
    let ifmt = (mode as u32) & S_IFMT;
    if ifmt == S_IFDIR {
        Some(FileKind::Directory)
    } else if ifmt == S_IFREG {
        Some(FileKind::Regular)
    } else if ifmt == S_IFLNK {
        Some(FileKind::Symlink)
    } else if ifmt == S_IFBLK {
        Some(FileKind::BlockDevice)
    } else if ifmt == S_IFCHR {
        Some(FileKind::CharDevice)
    } else {
        None
    }
}

/// The kind of file that a mode stands for. Fails with `Corrupt` on a
/// mode of another kind.
pub fn file_kind(mode: u64) -> (r: Result<FileKind, Error>)
    ensures
        match file_kind_spec(mode) {
            Some(kind) => r == Ok::<FileKind, Error>(kind),
            None => r == Err::<FileKind, Error>(Error::Corrupt),
        },
{
    let ifmt: u32 = (mode as u32) & S_IFMT;
    if ifmt == S_IFDIR {
        Ok(FileKind::Directory)
    } else if ifmt == S_IFREG {
        Ok(FileKind::Regular)
    } else if ifmt == S_IFLNK {
        Ok(FileKind::Symlink)
    } else if ifmt == S_IFBLK {
        Ok(FileKind::BlockDevice)
    } else if ifmt == S_IFCHR {
        Ok(FileKind::CharDevice)
    } else {
        Err(Error::Corrupt)
    }
}

/// Whether the items of a goodbye table are consistent with the size of
/// the buffer that holds them: a tail item has to give the size of the
/// buffer and of the table's header.
pub open spec fn goodbye_items_ok(items: Seq<CaFormatGoodbyeItem>, buffer_len: int) -> bool {
    forall|i: int|
        0 <= i < items.len() && (#[trigger] items[i]).hash == CA_FORMAT_GOODBYE_TAIL_MARKER
            ==> items[i].size == buffer_len + 16
}

/// Checks the items of a goodbye table against the size of the buffer
/// that holds them. Fails with `Corrupt` where a tail item gives another
/// size.
pub fn check_goodbye_entries(items: &Vec<CaFormatGoodbyeItem>, buffer_len: usize) -> (r: Result<
    (),
    Error,
>)
    ensures
        r == if goodbye_items_ok(items@, buffer_len as int) {
            Ok::<(), Error>(())
        } else {
            Err::<(), Error>(Error::Corrupt)
        },
{
    let mut i: usize = 0;
    while i < items.len()
        invariant
            i <= items.len(),
            forall|k: int|
                0 <= k < i && (#[trigger] items@[k]).hash == CA_FORMAT_GOODBYE_TAIL_MARKER
                    ==> items@[k].size == buffer_len + 16,
        decreases items.len() - i,
    {
        if items[i].hash == CA_FORMAT_GOODBYE_TAIL_MARKER {
            if items[i].size as u128 != buffer_len as u128 + 16 {
                return Err(Error::Corrupt);
            }
        }
        i += 1;
    }
    Ok(())
}

} // verus!
