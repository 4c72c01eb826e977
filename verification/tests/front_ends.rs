use lindirstat::agent::{kind_of, ScanCounts};
use lindirstat::palette::hue_degrees;
use lindirstat::connect::{can_start_scan, port_or_default, AuthMethod};
use lindirstat::session::{done_status, Batcher, Msg, Step, StreamError, StreamState, ViewState, BATCH_SIZE};
use lindirstat::wire::{Entry, Frame, Header, Summary, KIND_DIR, KIND_FILE, KIND_OTHER, KIND_SYMLINK, MAGIC};

fn entry(id: u32, parent_id: u32, name: &str, size: u64, kind: u8) -> Entry {
    Entry { id, parent_id, name: name.to_string(), size, mtime: 0, kind }
}

#[test]
fn stream_state_reads_until_summary() {
    let mut st = StreamState::new();
    let h = Header { magic: MAGIC, version: 1, root: "/r".to_string(), started_unix: 0 };
    assert_eq!(st.on_frame(Frame::Header(h)), Step::Continue);
    assert_eq!(st.on_frame(Frame::Entry(entry(0, 0, "/r", 3, KIND_DIR))), Step::Continue);
    assert_eq!(st.on_frame(Frame::Entry(entry(1, 0, "f", 7, KIND_FILE))), Step::Continue);
    let s = Summary { entries: 2, bytes: 7, errors: 0, elapsed_ms: 5 };
    assert_eq!(st.on_frame(Frame::Summary(s)), Step::Stop);
    assert!(st.finish().is_ok());
    assert_eq!(st.tree.subtree, vec![10, 7]);
}

#[test]
fn stream_without_header_fails() {
    let mut st = StreamState::new();
    st.on_frame(Frame::Entry(entry(0, 0, "/r", 3, KIND_DIR)));
    assert_eq!(st.finish(), Err(StreamError::NoHeader));
}

#[test]
fn done_status_text() {
    let s = Summary { entries: 12, bytes: 1536, errors: 1, elapsed_ms: 250 };
    assert_eq!(done_status(&s), "done: 12 entries, 1.5 KB, 1 errors, 250ms");
}

#[test]
fn batcher_hands_out_full_batches() {
    let mut b = Batcher::new();
    for i in 0..(BATCH_SIZE as u32 - 1) {
        assert!(b.on_entry(entry(i, 0, "x", 0, KIND_FILE)).is_none());
    }
    let full = b.on_entry(entry(9999, 0, "x", 0, KIND_FILE)).unwrap();
    assert_eq!(full.len(), BATCH_SIZE);
    assert!(b.batch.is_empty());
    assert!(b.take_rest().is_none());
    b.on_entry(entry(1, 0, "y", 0, KIND_FILE));
    assert_eq!(b.take_rest().unwrap().len(), 1);
}

#[test]
fn view_state_follows_messages() {
    let mut v = ViewState::new();
    assert!(!v.apply(Msg::Status("connecting…".to_string())));
    assert_eq!(v.status, "connecting…");
    assert!(!v.apply(Msg::Log("ignored".to_string())));
    assert_eq!(v.status, "connecting…");
    assert!(!v.apply(Msg::Header { root: "/home".to_string() }));
    assert_eq!(v.status, "scanning /home…");
    assert!(!v.apply(Msg::Batch(vec![entry(5, 9, "orphan", 1, KIND_FILE)])));
    assert!(v.zoom.is_empty());
    assert!(!v.apply(Msg::Batch(vec![entry(0, 0, "/home", 1, KIND_DIR), entry(1, 0, "a", 2, KIND_FILE)])));
    assert_eq!(v.zoom, vec![1]);
    assert!(v.apply(Msg::Done(Summary { entries: 2, bytes: 3, errors: 0, elapsed_ms: 1 })));
    assert_eq!(v.status, "done: 2 entries, 3 B, 0 errors, 1ms");
    assert!(v.apply(Msg::Error("boom".to_string())));
    assert_eq!(v.status, "error: boom");
}

#[test]
fn port_parsing() {
    assert_eq!(port_or_default("2222"), 2222);
    assert_eq!(port_or_default("+22"), 22);
    assert_eq!(port_or_default("0065535"), 65535);
    assert_eq!(port_or_default("65536"), 22);
    assert_eq!(port_or_default(""), 22);
    assert_eq!(port_or_default("+"), 22);
    assert_eq!(port_or_default(" 80"), 22);
    assert_eq!(port_or_default("8o"), 22);
    for t in ["1", "80", "443", "99999", "-1", "12a", "+0", "00"] {
        assert_eq!(port_or_default(t), t.parse::<u16>().unwrap_or(22), "{t}");
    }
}

#[test]
fn scan_button_rules() {
    assert!(can_start_scan("h", "/p", false, AuthMethod::SshKey, "", ""));
    assert!(!can_start_scan("", "/p", false, AuthMethod::SshKey, "", ""));
    assert!(!can_start_scan("h", "/p", true, AuthMethod::SshKey, "", ""));
    assert!(!can_start_scan("h", "/p", false, AuthMethod::Password, "u", ""));
    assert!(can_start_scan("h", "/p", false, AuthMethod::Password, "u", "pw"));
}

#[test]
fn kinds_and_counts() {
    assert_eq!(kind_of(true, false, false), KIND_DIR);
    assert_eq!(kind_of(false, true, false), KIND_FILE);
    assert_eq!(kind_of(false, false, true), KIND_SYMLINK);
    assert_eq!(kind_of(false, false, false), KIND_OTHER);
    let mut c = ScanCounts::new();
    assert_eq!(c.record(10), 1);
    assert_eq!(c.record(5), 2);
    let s = c.summary(3, 40);
    assert_eq!(s, Summary { entries: 3, bytes: 15, errors: 3, elapsed_ms: 40 });
}

#[test]
fn hue_matches_hash() {
    for id in [0u32, 1, 2, 77, 12345, u32::MAX] {
        let mut h = id.wrapping_mul(2654435761);
        h ^= h >> 16;
        assert_eq!(hue_degrees(id), h % 360);
    }
}

fn header(root: &str) -> Frame {
    Frame::Header(Header { magic: MAGIC, version: 1, root: root.to_string(), started_unix: 0 })
}

fn batch_ids(m: &Msg) -> Vec<u32> {
    match m {
        Msg::Batch(b) => b.iter().map(|e| e.id).collect(),
        _ => panic!("not a batch"),
    }
}

#[test]
fn on_read_passes_header_and_batches_entries() {
    let mut b = Batcher::new();
    let (msgs, step) = b.on_read(Ok(Some(header("/srv"))));
    assert_eq!(step, Step::Continue);
    assert_eq!(msgs.len(), 1);
    assert!(matches!(&msgs[0], Msg::Header { root } if root == "/srv"));
    for i in 0..(BATCH_SIZE as u32 - 1) {
        let (msgs, step) = b.on_read(Ok(Some(Frame::Entry(entry(i, 0, "x", 0, KIND_FILE)))));
        assert_eq!(step, Step::Continue);
        assert!(msgs.is_empty());
    }
    let (msgs, _) = b.on_read(Ok(Some(Frame::Entry(entry(7777, 0, "x", 0, KIND_FILE)))));
    assert_eq!(msgs.len(), 1);
    let ids = batch_ids(&msgs[0]);
    assert_eq!(ids.len(), BATCH_SIZE);
    assert_eq!(ids[0], 0);
    assert_eq!(ids[BATCH_SIZE - 1], 7777);
    assert!(b.batch.is_empty());
}

#[test]
fn on_read_flushes_before_summary() {
    let mut b = Batcher::new();
    b.on_read(Ok(Some(Frame::Entry(entry(1, 1, "/", 0, KIND_DIR)))));
    b.on_read(Ok(Some(Frame::Entry(entry(2, 1, "f", 3, KIND_FILE)))));
    let s = Summary { entries: 2, bytes: 3, errors: 0, elapsed_ms: 4 };
    let (msgs, step) = b.on_read(Ok(Some(Frame::Summary(s))));
    assert_eq!(step, Step::Stop);
    assert_eq!(msgs.len(), 2);
    assert_eq!(batch_ids(&msgs[0]), vec![1, 2]);
    assert!(matches!(&msgs[1], Msg::Done(d) if *d == s));
    // With nothing held, only the summary goes on.
    let (msgs, _) = b.on_read(Ok(Some(Frame::Summary(s))));
    assert_eq!(msgs.len(), 1);
}

#[test]
fn on_read_delivers_held_entries_at_end_of_stream() {
    let mut b = Batcher::new();
    b.on_read(Ok(Some(Frame::Entry(entry(3, 3, "/", 0, KIND_DIR)))));
    let (msgs, step) = b.on_read(Ok(None));
    assert_eq!(step, Step::Stop);
    assert_eq!(msgs.len(), 1);
    assert_eq!(batch_ids(&msgs[0]), vec![3]);
    let (msgs, step) = b.on_read(Ok(None));
    assert_eq!(step, Step::Stop);
    assert!(msgs.is_empty());
}

#[test]
fn on_read_delivers_held_entries_before_an_error() {
    let mut b = Batcher::new();
    b.on_read(Ok(Some(Frame::Entry(entry(3, 3, "/", 0, KIND_DIR)))));
    let (msgs, step) = b.on_read(Err("broken pipe".to_string()));
    assert_eq!(step, Step::Stop);
    assert_eq!(msgs.len(), 2);
    assert_eq!(batch_ids(&msgs[0]), vec![3]);
    assert!(matches!(&msgs[1], Msg::Error(t) if t == "broken pipe"));
}

#[test]
fn apply_checked_reports_a_bad_entry() {
    let mut v = ViewState::new();
    let good = vec![entry(0, 0, "/", 1, KIND_DIR), entry(1, 0, "a", 2, KIND_DIR)];
    assert_eq!(v.apply_checked(Msg::Batch(good)), Ok(false));
    assert_eq!(v.zoom, vec![0]);
    assert_eq!(v.tree.subtree, vec![3, 2]);
    let bad = vec![entry(2, 1, "b", 1, KIND_FILE), entry(9, 8, "x", 1, KIND_DIR), entry(8, 9, "y", 1, KIND_DIR)];
    assert_eq!(v.apply_checked(Msg::Batch(bad)), Err(2));
    assert_eq!(v.tree.entries.len(), 4);
    assert_eq!(v.zoom, vec![0]);
    assert_eq!(v.apply_checked(Msg::Status("s".to_string())), Ok(false));
    assert_eq!(v.status, "s");
    assert_eq!(v.apply_checked(Msg::Error("e".to_string())), Ok(true));
    assert_eq!(v.status, "error: e");
}

#[test]
fn zoom_goes_in_and_out() {
    let mut v = ViewState::new();
    v.apply(Msg::Batch(vec![
        entry(0, 0, "/", 0, KIND_DIR),
        entry(1, 0, "home", 0, KIND_DIR),
        entry(2, 1, "f", 5, KIND_FILE),
        entry(3, 0, "empty", 0, KIND_DIR),
    ]));
    assert_eq!(v.zoom, vec![0]);
    assert!(!v.can_zoom_out());
    v.zoom_out();
    assert_eq!(v.zoom, vec![0]);
    assert!(!v.zoom_into(2)); // a file
    assert!(!v.zoom_into(3)); // a directory without children
    assert_eq!(v.zoom, vec![0]);
    assert!(v.zoom_into(1));
    assert_eq!(v.zoom, vec![0, 1]);
    assert!(v.can_zoom_out());
    v.zoom_out();
    assert_eq!(v.zoom, vec![0]);
}
