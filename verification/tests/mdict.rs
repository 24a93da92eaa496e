use adler32::RollingAdler32;
use dw::mdict::attributes::attribute_pairs;
use dw::mdict::mdict::{MDict, MDictAsset};
use dw::mdict::mdict_header::{MDictHeader, StyleSheet};
use dw::mdict::mdx::Word;
use dw::mdict::utils::{assert_adler32_checksum, check_adler32, read_utf16_string, MDictError};
use vstd::hash_map::StringHashMap;

fn err_of<T>(r: Result<T, MDictError>) -> MDictError {
    match r {
        Ok(_) => panic!("expected an error"),
        Err(e) => e,
    }
}

fn adler(data: &[u8]) -> u32 {
    RollingAdler32::from_buffer(data).hash()
}

fn utf16le(text: &str) -> Vec<u8> {
    text.encode_utf16().flat_map(|u| u.to_le_bytes()).collect()
}

/// A version 1.2 dictionary file with UTF-8 keys and the given (key, record)
/// entries, in one key block and one record block, both stored raw.
fn v1_dictionary(entries: &[(&str, &str)]) -> Vec<u8> {
    let header_text = "<Dictionary GeneratedByEngineVersion=\"1.2\" Encoding=\"UTF-8\" Encrypted=\"No\" StyleSheet=\"\"/>";
    let mut header_bytes = utf16le(header_text);
    header_bytes.extend_from_slice(&[0, 0, 0, 0]);
    let mut file = Vec::new();
    file.extend_from_slice(&(header_bytes.len() as u32).to_be_bytes());
    file.extend_from_slice(&header_bytes);
    file.extend_from_slice(&adler(&header_bytes).to_le_bytes());

    // key block data: record offset, key text, terminator
    let mut key_data = Vec::new();
    let mut records = Vec::new();
    for (key, record) in entries {
        key_data.extend_from_slice(&(records.len() as u32).to_be_bytes());
        key_data.extend_from_slice(key.as_bytes());
        key_data.push(0);
        records.extend_from_slice(record.as_bytes());
    }
    let mut key_block = Vec::new();
    key_block.extend_from_slice(&0u32.to_le_bytes());
    key_block.extend_from_slice(&adler(&key_data).to_be_bytes());
    key_block.extend_from_slice(&key_data);

    // key block info: entry count, head text, tail text, sizes
    let head = entries[0].0;
    let tail = entries[entries.len() - 1].0;
    let mut info = Vec::new();
    info.extend_from_slice(&(entries.len() as u32).to_be_bytes());
    info.push(head.len() as u8);
    info.extend_from_slice(head.as_bytes());
    info.push(tail.len() as u8);
    info.extend_from_slice(tail.as_bytes());
    info.extend_from_slice(&(key_block.len() as u32).to_be_bytes());
    info.extend_from_slice(&(key_data.len() as u32).to_be_bytes());

    // key section summary
    file.extend_from_slice(&1u32.to_be_bytes());
    file.extend_from_slice(&(entries.len() as u32).to_be_bytes());
    file.extend_from_slice(&(info.len() as u32).to_be_bytes());
    file.extend_from_slice(&(key_block.len() as u32).to_be_bytes());
    file.extend_from_slice(&info);
    file.extend_from_slice(&key_block);

    // record section
    let mut record_block = Vec::new();
    record_block.extend_from_slice(&0u32.to_le_bytes());
    record_block.extend_from_slice(&adler(&records).to_be_bytes());
    record_block.extend_from_slice(&records);
    file.extend_from_slice(&1u32.to_be_bytes());
    file.extend_from_slice(&(entries.len() as u32).to_be_bytes());
    file.extend_from_slice(&8u32.to_be_bytes());
    file.extend_from_slice(&(record_block.len() as u32).to_be_bytes());
    file.extend_from_slice(&(record_block.len() as u32).to_be_bytes());
    file.extend_from_slice(&(records.len() as u32).to_be_bytes());
    file.extend_from_slice(&record_block);
    file
}

fn read_dictionary(file: &[u8]) -> MDict {
    let (text, pos) = MDictHeader::read_dict_info(file, 0).unwrap();
    let attributes = MDictHeader::read_header_attributes(&text);
    let header = MDictHeader::parse_header(&attributes, false).unwrap();
    let words = header.read_words(file, pos).unwrap();
    MDict { mdx_file_path: "test.mdx".to_string(), header, mdd_asset: None, words }
}

#[test]
fn reads_a_small_dictionary() {
    let file = v1_dictionary(&[("apple", "a fruit"), ("banana", "yellow"), ("cherry", "红色")]);
    let dict = read_dictionary(&file);
    assert_eq!(dict.lookup("apple").unwrap(), "a fruit");
    assert_eq!(dict.lookup("banana").unwrap(), "yellow");
    assert_eq!(dict.lookup("cherry").unwrap(), "红色");
    assert!(dict.lookup("durian").is_none());
    assert!(dict.lookup_assets("apple").is_none());
    assert_eq!(dict.header.encoding, "UTF-8");
    assert_eq!(dict.header.number_width, 4);
    assert_eq!(dict.header.number_format, ">I");
    assert_eq!(dict.header.encrypt, 0);
    assert!(matches!(dict.header.stylesheet, StyleSheet::Begin));
    assert!(!dict.header.version_at_least_2);
}

#[test]
fn reads_the_header_text() {
    let file = v1_dictionary(&[("a", "b")]);
    let (text, pos) = MDictHeader::read_dict_info(&file, 0).unwrap();
    assert!(text.starts_with("<Dictionary GeneratedByEngineVersion=\"1.2\""));
    let size = u32::from_be_bytes([file[0], file[1], file[2], file[3]]) as usize;
    assert_eq!(pos, size + 8);
    let attributes = MDictHeader::read_header_attributes(&text);
    assert_eq!(attributes.get("Encoding").unwrap(), "UTF-8");
    assert_eq!(attributes.get("GeneratedByEngineVersion").unwrap(), "1.2");
    assert_eq!(attributes.get("StyleSheet").unwrap(), "");
    assert!(attributes.get("Missing").is_none());
}

#[test]
fn a_corrupted_header_is_refused() {
    let mut file = v1_dictionary(&[("a", "b")]);
    file[6] ^= 1;
    assert_eq!(MDictHeader::read_dict_info(&file, 0).unwrap_err(), MDictError::ChecksumMismatch);
    assert_eq!(MDictHeader::read_dict_info(&file[..3], 0).unwrap_err(), MDictError::UnexpectedEof);
}

#[test]
fn a_corrupted_record_is_refused() {
    let mut file = v1_dictionary(&[("apple", "a fruit")]);
    let last = file.len() - 1;
    file[last] ^= 1;
    let (text, pos) = MDictHeader::read_dict_info(&file, 0).unwrap();
    let attributes = MDictHeader::read_header_attributes(&text);
    let header = MDictHeader::parse_header(&attributes, false).unwrap();
    assert_eq!(err_of(header.read_words(&file, pos)), MDictError::ChecksumMismatch);
}

#[test]
fn a_truncated_file_is_refused() {
    let file = v1_dictionary(&[("apple", "a fruit")]);
    let (text, pos) = MDictHeader::read_dict_info(&file, 0).unwrap();
    let attributes = MDictHeader::read_header_attributes(&text);
    let header = MDictHeader::parse_header(&attributes, false).unwrap();
    assert_eq!(err_of(header.read_words(&file[..file.len() - 3], pos)), MDictError::UnexpectedEof);
}

#[test]
fn later_entries_of_a_key_win() {
    let file = v1_dictionary(&[("a", "first"), ("a", "second")]);
    let dict = read_dictionary(&file);
    assert_eq!(dict.lookup("a").unwrap(), "second");
}

#[test]
fn header_attribute_rules() {
    let mut attrs: StringHashMap<String> = StringHashMap::new();
    assert_eq!(err_of(MDictHeader::parse_header(&attrs, true)), MDictError::MissingAttribute);
    attrs.insert("Encoding".to_string(), "UTF-16".to_string());
    attrs.insert("Encrypted".to_string(), "maybe".to_string());
    assert_eq!(err_of(MDictHeader::parse_header(&attrs, true)), MDictError::InvalidAttribute);
    attrs.insert("Encrypted".to_string(), "2".to_string());
    assert_eq!(err_of(MDictHeader::parse_header(&attrs, true)), MDictError::MissingAttribute);
    attrs.insert("StyleSheet".to_string(), "7".to_string());
    let h = MDictHeader::parse_header(&attrs, true).unwrap();
    assert_eq!(h.encrypt, 2);
    assert!(matches!(h.stylesheet, StyleSheet::Number(7)));
    assert_eq!(h.number_width, 8);
    assert_eq!(h.number_format, ">Q");
    attrs.insert("Encrypted".to_string(), "Yes".to_string());
    attrs.insert("StyleSheet".to_string(), "x".to_string());
    assert_eq!(err_of(MDictHeader::parse_header(&attrs, true)), MDictError::InvalidAttribute);
}

#[test]
fn reads_numbers_of_both_widths() {
    let attrs = |v2: bool| {
        let mut a: StringHashMap<String> = StringHashMap::new();
        a.insert("Encoding".to_string(), "UTF-8".to_string());
        a.insert("StyleSheet".to_string(), "".to_string());
        MDictHeader::parse_header(&a, v2).unwrap()
    };
    let data = [0u8, 0, 0, 1, 0, 0, 0, 2];
    assert_eq!(attrs(false).read_number(&data, 0), Some(1));
    assert_eq!(attrs(false).read_number(&data, 4), Some(2));
    assert_eq!(attrs(false).read_number(&data, 5), None);
    assert_eq!(attrs(true).read_number(&data, 0), Some(0x1_0000_0002));
    assert_eq!(attrs(true).read_number(&data, 1), None);
}

#[test]
fn utf16_strings() {
    assert_eq!(read_utf16_string(&utf16le("hello 你好")), Some("hello 你好".to_string()));
    assert_eq!(read_utf16_string(&utf16le("😀")), Some("😀".to_string()));
    assert_eq!(read_utf16_string(&[]), Some(String::new()));
    // a lone high surrogate
    assert_eq!(read_utf16_string(&[0x3d, 0xd8]), None);
}

#[test]
fn adler32_checks() {
    let data = b"Wikipedia";
    assert_eq!(adler(data), 0x11E60398);
    assert_adler32_checksum(data, 0x11E60398);
    assert_eq!(check_adler32(data, 0x11E60398), Ok(()));
    assert_eq!(check_adler32(data, 1), Err(MDictError::ChecksumMismatch));
}

#[test]
fn words_and_assets() {
    let w = Word::new("key".to_string(), "record".to_string());
    assert_eq!(w.key_text, "key");
    assert_eq!(w.record_text, "record");
    let file = v1_dictionary(&[("a", "b")]);
    let (text, _) = MDictHeader::read_dict_info(&file, 0).unwrap();
    let attributes = MDictHeader::read_header_attributes(&text);
    let header = MDictHeader::parse_header(&attributes, false).unwrap();
    let mut assets: StringHashMap<Vec<u8>> = StringHashMap::new();
    assets.insert("\\logo.png".to_string(), vec![1, 2, 3]);
    let asset = MDictAsset::new("test.mdd".to_string(), header, assets);
    let dict = MDict {
        mdx_file_path: "test.mdx".to_string(),
        header: MDictHeader::parse_header(&attributes, false).unwrap(),
        mdd_asset: Some(asset),
        words: StringHashMap::new(),
    };
    assert_eq!(dict.lookup_assets("\\logo.png"), Some(&vec![1, 2, 3]));
    assert!(dict.lookup_assets("\\other.png").is_none());
}

#[test]
fn mdx_words_come_in_key_list_order() {
    let mut attrs: StringHashMap<String> = StringHashMap::new();
    attrs.insert("Encoding".to_string(), "UTF-8".to_string());
    attrs.insert("StyleSheet".to_string(), "".to_string());
    let header = MDictHeader::parse_header(&attrs, false).unwrap();
    let data = vec![
        0, 0, 0, 1, 0, 0, 0, 2, 0, 0, 0, 8, 0, 0, 0, 13, 0, 0, 0, 13, 0, 0, 0, 5, 0, 0, 0, 0, 0x05, 0xC8, 0x01, 0xF0,
        b'a', b'b', b'c', b'd', b'e',
    ];
    let key_list = vec![(0, "x".to_string()), (2, "y".to_string())];
    let words = header.mdx_decode_record_block(&data, 0, key_list).ok().unwrap();
    let pairs: Vec<(String, String)> = words.into_iter().map(|w| (w.key_text, w.record_text)).collect();
    assert_eq!(pairs, vec![("x".to_string(), "ab".to_string()), ("y".to_string(), "cde".to_string())]);
}

#[test]
fn header_attribute_grammar() {
    let pairs = |t: &str| -> Vec<(String, String)> { attribute_pairs(t) };
    let p = |v: &[(&str, &str)]| -> Vec<(String, String)> { v.iter().map(|(a, b)| (a.to_string(), b.to_string())).collect() };
    assert_eq!(pairs("<Dictionary a=\"1\" b_2=\"x y\"/>"), p(&[("a", "1"), ("b_2", "x y")]));
    assert_eq!(pairs("a= \"1\" b=\"2\""), p(&[("b", "2")]));
    assert_eq!(pairs("a=\"no end"), p(&[]));
    assert_eq!(pairs("a=\"line\nbreak\" c=\"3\""), p(&[("c", "3")]));
    assert_eq!(pairs("a=\"\""), p(&[("a", "")]));
    assert_eq!(pairs("x=\"<b>\"y=\"2\""), p(&[("x", "<b>"), ("y", "2")]));
    assert_eq!(pairs(""), p(&[]));
    // names are word characters in the Unicode sense
    assert_eq!(pairs("名字=\"值\" é_1=\"x\""), p(&[("名字", "值"), ("é_1", "x")]));
}

#[test]
fn reads_the_key_section_of_a_sound_file() {
    let file = v1_dictionary(&[("apple", "a fruit"), ("banana", "yellow")]);
    let (text, pos) = MDictHeader::read_dict_info(&file, 0).unwrap();
    let attributes = MDictHeader::read_header_attributes(&text);
    let header = MDictHeader::parse_header(&attributes, false).unwrap();
    let (keys, after) = header.read_keys(&file, pos).ok().unwrap();
    assert_eq!(keys, vec![(0, "apple".to_string()), (7, "banana".to_string())]);
    let records = header.decode_record_block(&file, after, keys).ok().unwrap();
    let texts: Vec<(String, Vec<u8>)> = records;
    assert_eq!(texts, vec![("apple".to_string(), b"a fruit".to_vec()), ("banana".to_string(), b"yellow".to_vec())]);
}
