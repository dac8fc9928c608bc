use bkupeval::catalog::CatalogState;
use bkupeval::records::build_list_record;

fn key_of(name: &[u8]) -> Vec<u8> {
    let mut k: Vec<u8> = Vec::new();
    for b in name {
        k.extend_from_slice(format!("{:02X}", b).as_bytes());
    }
    while k.len() < 512 {
        k.extend_from_slice(b"00");
    }
    k
}

fn run(lines: &[&[u8]]) -> Vec<Vec<u8>> {
    let mut st = CatalogState::new();
    let mut out = Vec::new();
    for l in lines {
        assert!(!st.step_aborts(l));
        if let Some(rec) = st.step(l) {
            out.push(rec);
        }
    }
    out
}

#[test]
fn a_file_of_the_catalogue_becomes_a_record() {
    let recs = run(&[
        b"<Cd>\n",
        b"  <Name>CD01</Name>\n",
        b"  <Directory>\n",
        b"    <Name>pics</Name>\n",
        b"    <FullName>/backup/pics</FullName>\n",
        b"    <File>\n",
        b"      <Name>a.jpg</Name>\n",
        b"      <Date>2024-01-02 03:04:05</Date>\n",
        b"      <Size>1234</Size>\n",
        b"    </File>\n",
    ]);
    let expected = build_list_record(&key_of(b"a.jpg"), b"0000000000001234", b"CD01", b"/backup/pics", b"a.jpg", b"2024-01-02 03:04:05");
    assert_eq!(recs, vec![expected]);
}

#[test]
fn missing_values_are_written_as_such() {
    let recs = run(&[
        b"<Cd>\n",
        b"<Name>CD02</Name>\n",
        b"<Directory>\n",
        b"<Name></Name>\n",
        b"<File>\n",
        b"<Name>b.jpg</Name>\n",
        b"<Date></Date>\n",
        b"<Size>12x</Size>\n",
        b"</File>\n",
        b"<File>\n",
        b"<Name>c.jpg</Name>\n",
        b"<Size></Size>\n",
        b"</File>\n",
    ]);
    assert_eq!(recs.len(), 2);
    let first = build_list_record(&key_of(b"b.jpg"), b"invalid size value: 12x", b"CD02", b"/", b"b.jpg", b"***no /Date or null value***");
    assert_eq!(recs[0], first);
    let second = build_list_record(&key_of(b"c.jpg"), b"***no /Size or null value***", b"CD02", b"/", b"c.jpg", b"");
    assert_eq!(recs[1], second);
}

#[test]
fn a_tag_without_its_closing_tag_aborts() {
    let mut st = CatalogState::new();
    assert!(st.step(b"<Cd>\n").is_none());
    assert!(st.step_aborts(b"<Name>CD01\n"));
    assert!(st.step_aborts(b"</Name><Name>x\n"));
    assert!(!st.step_aborts(b"<Name>CD01</Name>\n"));
}

#[test]
fn dates_and_sizes_outside_a_file_are_ignored() {
    let recs = run(&[
        b"<Cd>\n",
        b"<Name>CD03</Name>\n",
        b"<Date>1999</Date>\n",
        b"<Directory>\n",
        b"<FullName>/d</FullName>\n",
        b"<Size>5</Size>\n",
        b"<File>\n",
        b"<Name>d.jpg</Name>\n",
        b"</File>\n",
    ]);
    let expected = build_list_record(&key_of(b"d.jpg"), b"", b"CD03", b"/d", b"d.jpg", b"");
    assert_eq!(recs, vec![expected]);
}

#[test]
fn the_conversion_stops_after_the_rows_entered() {
    assert!(!bkupeval::catalog::conversion_done(10, 10));
    assert!(bkupeval::catalog::conversion_done(11, 10));
}
