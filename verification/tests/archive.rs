use std::io::Write;

use ml_runner::archive::{download_and_extract, tar_binary, zip_binary, TarFault, ZipFault};

fn zip_of(entries: &[(&str, &[u8])]) -> Vec<u8> {
    let mut writer = zip::ZipWriter::new(std::io::Cursor::new(Vec::new()));
    for (name, contents) in entries {
        let options = zip::write::SimpleFileOptions::default()
            .compression_method(zip::CompressionMethod::Deflated);
        writer.start_file(*name, options).unwrap();
        writer.write_all(contents).unwrap();
    }
    writer.finish().unwrap().into_inner()
}

fn gzip_of(bytes: &[u8]) -> Vec<u8> {
    let mut encoder = flate2::write::GzEncoder::new(Vec::new(), flate2::Compression::default());
    encoder.write_all(bytes).unwrap();
    encoder.finish().unwrap()
}

fn tar_of(entries: &[(&str, &[u8])]) -> Vec<u8> {
    let mut builder = tar::Builder::new(Vec::new());
    for (name, contents) in entries {
        let mut header = tar::Header::new_gnu();
        header.set_size(contents.len() as u64);
        header.set_mode(0o755);
        header.set_cksum();
        builder.append_data(&mut header, name, *contents).unwrap();
    }
    builder.into_inner().unwrap()
}

#[test]
fn the_first_entry_of_a_zip() {
    let program: Vec<u8> = (0..10_000u32).map(|i| (i % 7) as u8).collect();
    let archive = zip_of(&[("ml-runner.exe", &program), ("readme", b"text")]);
    assert_ne!(archive, program);
    assert_eq!(download_and_extract(&archive, true), Ok(program));
}

#[test]
fn the_first_entry_of_a_tar_gz() {
    let program: Vec<u8> = (0..10_000u32).map(|i| (i % 11) as u8).collect();
    let archive = gzip_of(&tar_of(&[("ml-runner", &program), ("readme", b"text")]));
    assert_eq!(download_and_extract(&archive, false), Ok(program));
}

#[test]
fn what_follows_the_first_entry_is_not_read() {
    let mut bytes = tar_of(&[("ml-runner", b"program")]);
    bytes.truncate(1024);
    bytes.extend_from_slice(&[0xff; 700]);
    assert_eq!(download_and_extract(&gzip_of(&bytes), false), Ok(b"program".to_vec()));
}

#[test]
fn broken_zips() {
    let fault = |text: &str| Err(text.to_string());
    assert_eq!(
        download_and_extract(&b"no archive".to_vec(), true),
        fault("opening downloaded .zip")
    );
    assert_eq!(download_and_extract(&zip_of(&[]), true), fault("the .zip is empty"));
    let mut damaged = zip_of(&[("a", &[1u8; 64])]);
    let data_start = 30 + 1;
    damaged[data_start] ^= 0xff;
    assert_eq!(
        download_and_extract(&damaged, true),
        fault("extracting the binary from the .zip")
    );
}

#[test]
fn broken_tar_gzs() {
    let fault = |text: &str| Err(text.to_string());
    assert_eq!(
        download_and_extract(&b"no archive".to_vec(), false),
        fault("reading the .tar.gz entry")
    );
    assert_eq!(download_and_extract(&gzip_of(&tar_of(&[])), false), fault("the .tar.gz is empty"));
    let mut short = tar_of(&[("a", &[1u8; 600])]);
    short.truncate(700);
    let out = download_and_extract(&gzip_of(&short), false);
    assert_eq!(out, Ok(vec![1u8; 188]));
    let mut bytes = gzip_of(&tar_of(&[("a", &[1u8; 600])]));
    bytes.truncate(40);
    assert!(download_and_extract(&bytes, false).is_err());
}

fn sparse_header(size: u64, extended: bool) -> tar::Header {
    let mut header = tar::Header::new_gnu();
    header.set_entry_type(tar::EntryType::GNUSparse);
    header.set_size(size);
    header.as_gnu_mut().unwrap().set_is_extended(extended);
    header
}

fn closed(mut header: tar::Header) -> Vec<u8> {
    header.set_cksum();
    header.as_bytes().to_vec()
}

fn extended_header(records: &[u8]) -> Vec<u8> {
    let mut header = tar::Header::new_ustar();
    header.set_entry_type(tar::EntryType::XHeader);
    header.set_size(records.len() as u64);
    let mut bytes = closed(header);
    bytes.extend_from_slice(records);
    bytes.resize(1024, 0);
    bytes
}

#[test]
fn a_size_that_cannot_be_counted_is_refused() {
    let refused = Err("reading the .tar.gz entry".to_string());
    let mut bytes = closed(sparse_header(u64::MAX - 1023, true));
    bytes.extend_from_slice(&[0; 512]);
    assert_eq!(download_and_extract(&gzip_of(&bytes), false), refused);
    let mut two = closed(sparse_header(u64::MAX - 2047, true));
    let mut more = [0u8; 512];
    more[504] = 1;
    two.extend_from_slice(&more);
    two.extend_from_slice(&more);
    two.extend_from_slice(&more);
    assert_eq!(download_and_extract(&gzip_of(&two), false), refused);
}

#[test]
fn a_size_in_an_extended_header_counts() {
    let refused = Err("reading the .tar.gz entry".to_string());
    let mut bytes = extended_header(b"10 uid=12\n29 size=18446744073709549568\n");
    bytes.extend_from_slice(&closed(sparse_header(0, true)));
    bytes.extend_from_slice(&[0; 512]);
    assert_eq!(download_and_extract(&gzip_of(&bytes), false), refused);
}

#[test]
fn a_sparse_file_is_filled_up() {
    let mut header = sparse_header(512, true);
    {
        let gnu = header.as_gnu_mut().unwrap();
        gnu.set_real_size(1536);
        gnu.sparse[0].set_offset(1024);
        gnu.sparse[0].set_length(512);
    }
    let mut bytes = closed(header);
    bytes.extend_from_slice(&[0; 512]);
    bytes.extend_from_slice(&[7; 512]);
    let mut expected = vec![0u8; 1024];
    expected.extend_from_slice(&[7; 512]);
    assert_eq!(download_and_extract(&gzip_of(&bytes), false), Ok(expected));
}

#[test]
fn a_long_name_is_passed_over() {
    let name = "x".repeat(300);
    let archive = gzip_of(&tar_of(&[(name.as_str(), b"program")]));
    assert_eq!(download_and_extract(&archive, false), Ok(b"program".to_vec()));
}

#[test]
fn faults_in_words() {
    assert_eq!(zip_binary(Ok(vec![1, 2])), Ok(vec![1, 2]));
    assert_eq!(tar_binary(Ok(vec![3])), Ok(vec![3]));
    assert_eq!(zip_binary(Err(ZipFault::Open)), Err("opening downloaded .zip".to_string()));
    assert_eq!(zip_binary(Err(ZipFault::Empty)), Err("the .zip is empty".to_string()));
    assert_eq!(
        zip_binary(Err(ZipFault::Extract)),
        Err("extracting the binary from the .zip".to_string())
    );
    assert_eq!(tar_binary(Err(TarFault::Open)), Err("reading the .tar.gz".to_string()));
    assert_eq!(tar_binary(Err(TarFault::Empty)), Err("the .tar.gz is empty".to_string()));
    assert_eq!(tar_binary(Err(TarFault::Entry)), Err("reading the .tar.gz entry".to_string()));
    assert_eq!(
        tar_binary(Err(TarFault::Extract)),
        Err("extracting the binary from the .tar.gz".to_string())
    );
}
