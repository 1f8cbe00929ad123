use bytes::{BufMut, BytesMut};

use page_store::disk::MemDisk;
use page_store::error::StoreError;
use page_store::layout::PAGE_SIZE;
use page_store::store::FileHandle;

/// A full page starting with `prefix` and zero-filled to PAGE_SIZE.
fn page_of(prefix: &[u8]) -> BytesMut {
    let mut page = BytesMut::with_capacity(PAGE_SIZE);
    page.put(prefix);
    page.resize(PAGE_SIZE, 0);
    page
}

#[test]
fn read_write_to_new_file() {
    let file_handle_res = FileHandle::new(MemDisk::new());
    assert!(file_handle_res.is_ok());
    let mut file_handle = file_handle_res.unwrap();

    let data: &[u8] = b"Test Data";
    let page = page_of(data);

    let mut res = file_handle.append_page(&page);
    assert!(res.is_ok());
    assert_eq!(res.unwrap(), PAGE_SIZE);

    let mut buf: BytesMut = BytesMut::with_capacity(PAGE_SIZE);
    res = file_handle.read_page(0, &mut buf);
    assert!(res.is_ok());
    assert_eq!(res.unwrap(), PAGE_SIZE);

    assert_eq!(page, buf);
}

#[test]
fn read_write_multiple_pages() {
    // Create file handle
    let file_handle_res = FileHandle::new(MemDisk::new());
    assert!(file_handle_res.is_ok());
    let mut file_handle = file_handle_res.unwrap();

    // Create first page
    let data: &[u8] = b"Test Data on page 1";
    let mut page = page_of(data);

    // Append it
    let mut res = file_handle.append_page(&page);
    assert!(res.is_ok());
    assert_eq!(res.unwrap(), PAGE_SIZE);

    // Create output buffer and read first page
    let mut buf: BytesMut = BytesMut::with_capacity(PAGE_SIZE);
    res = file_handle.read_page(0, &mut buf);
    assert!(res.is_ok());
    assert_eq!(res.unwrap(), PAGE_SIZE);

    // Check that the data we get back is the same
    assert_eq!(page, buf);

    // New page
    let data2: &[u8] = b"New data for page 1";
    page = page_of(data2);

    // Write it
    res = file_handle.write_page(0, &page);
    assert!(res.is_ok());
    assert_eq!(res.unwrap(), PAGE_SIZE);

    buf.clear();
    res = file_handle.read_page(0, &mut buf);
    assert!(res.is_ok());
    assert_eq!(res.unwrap(), PAGE_SIZE);

    assert_eq!(page, buf);
}

#[test]
fn fresh_store_append_and_read_back() {
    let mut h = FileHandle::new(MemDisk::new()).unwrap();
    assert_eq!(h.get_num_pages(), 0);

    let page = page_of(&[b'X'; PAGE_SIZE][..]);
    let res = h.append_page(&page);
    assert_eq!(res.unwrap(), PAGE_SIZE);
    assert_eq!(h.get_num_pages(), 1);

    let mut buf = BytesMut::new();
    let res = h.read_page(0, &mut buf);
    assert_eq!(res.unwrap(), PAGE_SIZE);
    assert_eq!(buf.as_ref(), &[b'X'; PAGE_SIZE][..]);
}

#[test]
fn write_leaves_other_pages_unchanged() {
    let mut h = FileHandle::new(MemDisk::new()).unwrap();
    let p0 = page_of(b"page zero content");
    let p1 = page_of(b"page one content");
    assert_eq!(h.append_page(&p0).unwrap(), PAGE_SIZE);
    assert_eq!(h.append_page(&p1).unwrap(), PAGE_SIZE);

    // Overwrite page 0 with page 1's content.
    assert_eq!(h.write_page(0, &p1).unwrap(), PAGE_SIZE);

    let mut buf = BytesMut::new();
    assert_eq!(h.read_page(0, &mut buf).unwrap(), PAGE_SIZE);
    assert_eq!(buf, p1);

    // Page 1 is untouched by the write to page 0.
    buf.clear();
    assert_eq!(h.read_page(1, &mut buf).unwrap(), PAGE_SIZE);
    assert_eq!(buf, p1);
}

#[test]
fn out_of_bounds_read_touches_nothing() {
    let mut h = FileHandle::new(MemDisk::new()).unwrap();
    let p0 = page_of(b"zero");
    let p1 = page_of(b"one");
    h.append_page(&p0).unwrap();
    h.append_page(&p1).unwrap();
    let reads_before = h.get_read_count();

    let mut buf = BytesMut::new();
    let res = h.read_page(5, &mut buf);
    assert_eq!(res, Err(StoreError::OutOfBounds));
    assert!(buf.is_empty());
    assert_eq!(h.get_read_count(), reads_before);

    // The medium is unaffected: both pages still read back intact.
    assert_eq!(h.read_page(0, &mut buf).unwrap(), PAGE_SIZE);
    assert_eq!(buf, p0);
    buf.clear();
    assert_eq!(h.read_page(1, &mut buf).unwrap(), PAGE_SIZE);
    assert_eq!(buf, p1);
}

#[test]
fn bounds_are_strict() {
    let mut h = FileHandle::new(MemDisk::new()).unwrap();
    let page = page_of(b"bounds");
    h.append_page(&page).unwrap();
    h.append_page(&page).unwrap();
    let n = h.get_num_pages();
    assert_eq!(n, 2);

    let mut buf = BytesMut::new();
    assert_eq!(h.read_page(n, &mut buf), Err(StoreError::OutOfBounds));
    assert_eq!(h.write_page(n, &page), Err(StoreError::OutOfBounds));
    assert!(h.read_page(n - 1, &mut buf).is_ok());
    assert!(h.write_page(n - 1, &page).is_ok());
}

#[test]
fn counters_move_by_one_per_operation() {
    let mut h = FileHandle::new(MemDisk::new()).unwrap();
    assert_eq!(h.get_read_count(), 0);
    assert_eq!(h.get_write_count(), 0);
    assert_eq!(h.get_append_count(), 0);

    let page = page_of(b"counted");
    h.append_page(&page).unwrap();
    assert_eq!(h.get_append_count(), 1);
    h.append_page(&page).unwrap();
    assert_eq!(h.get_append_count(), 2);

    h.write_page(1, &page).unwrap();
    assert_eq!(h.get_write_count(), 1);

    let mut buf = BytesMut::new();
    h.read_page(0, &mut buf).unwrap();
    assert_eq!(h.get_read_count(), 1);

    // Failed operations count nothing.
    assert!(h.write_page(9, &page).is_err());
    assert!(h.read_page(9, &mut buf).is_err());
    assert_eq!(h.get_write_count(), 1);
    assert_eq!(h.get_read_count(), 1);
}

#[test]
fn flushed_counters_survive_reopen() {
    let mut h = FileHandle::new(MemDisk::new()).unwrap();
    let page = page_of(b"durable");
    h.append_page(&page).unwrap();
    h.append_page(&page).unwrap();
    h.write_page(0, &page).unwrap();
    let mut buf = BytesMut::new();
    h.read_page(1, &mut buf).unwrap();
    assert_eq!(
        (h.get_read_count(), h.get_write_count(), h.get_append_count(), h.get_num_pages()),
        (1, 1, 2, 2),
    );

    h.write_counters();
    let disk = h.into_disk();
    let reopened = FileHandle::new(disk).unwrap();
    assert_eq!(reopened.get_read_count(), 1);
    assert_eq!(reopened.get_write_count(), 1);
    assert_eq!(reopened.get_append_count(), 2);
    assert_eq!(reopened.get_num_pages(), 2);
}

#[test]
fn wrong_sized_buffers_are_rejected() {
    let mut h = FileHandle::new(MemDisk::new()).unwrap();
    let full = page_of(b"ok");
    h.append_page(&full).unwrap();

    let mut small = BytesMut::new();
    small.put(&b"tiny"[..]);
    assert_eq!(h.append_page(&small), Err(StoreError::InvalidArgument));
    assert_eq!(h.write_page(0, &small), Err(StoreError::InvalidArgument));
    assert_eq!(h.get_num_pages(), 1);
    assert_eq!(h.get_write_count(), 0);
    assert_eq!(h.get_append_count(), 1);
}

#[test]
fn read_appends_to_existing_buffer() {
    let mut h = FileHandle::new(MemDisk::new()).unwrap();
    let page = page_of(b"appended after prefix");
    h.append_page(&page).unwrap();

    let mut buf = BytesMut::new();
    buf.put(&b"prefix"[..]);
    assert_eq!(h.read_page(0, &mut buf).unwrap(), PAGE_SIZE);
    assert_eq!(buf.len(), 6 + PAGE_SIZE);
    assert_eq!(&buf.as_ref()[..6], b"prefix");
    assert_eq!(&buf.as_ref()[6..], page.as_ref());
}

#[test]
fn truncated_medium_gives_short_read() {
    // A header that claims one page over a medium holding no page bytes.
    let disk = MemDisk::from_bytes(b"0|0|0|1".to_vec());
    let mut h = FileHandle::new(disk).unwrap();
    assert_eq!(h.get_num_pages(), 1);

    let mut buf = BytesMut::new();
    let res = h.read_page(0, &mut buf);
    assert_eq!(res.unwrap(), 0);
    assert!(buf.is_empty());
    assert_eq!(h.get_read_count(), 1);
}
