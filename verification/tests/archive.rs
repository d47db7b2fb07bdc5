use elf_linker::archive_parser::{ArchiveEntry, Parser};
use elf_linker::error::LinkError;
use elf_linker::utils::read_struct::read_struct;
use elf_linker::utils::str_table::StrTable;

fn header(out: &mut Vec<u8>, name: &str, size: &str) {
    let mut field = name.as_bytes().to_vec();
    field.resize(16, b' ');
    out.extend_from_slice(&field);
    out.extend_from_slice(b"1700000000  ");
    out.extend_from_slice(b"1000  ");
    out.extend_from_slice(b"1000  ");
    out.extend_from_slice(b"100644  ");
    let mut size_field = size.as_bytes().to_vec();
    size_field.resize(10, b' ');
    out.extend_from_slice(&size_field);
    out.extend_from_slice(&[0x60, 0x0a]);
}

fn archive(members: &[(&str, &[u8])]) -> Vec<u8> {
    let mut out = b"!<arch>\n".to_vec();
    for (name, data) in members {
        header(&mut out, name, &format!("{}", data.len()));
        out.extend_from_slice(data);
        if out.len() % 2 != 0 {
            out.push(b'\n');
        }
    }
    out
}

fn names_and_bytes(bytes: &[u8]) -> Vec<(String, Vec<u8>)> {
    Parser::parse_inner(bytes).unwrap().into_iter().map(|m| (m.name, m.data)).collect()
}

#[test]
fn an_archive_with_a_long_name() {
    let bytes = archive(&[
        ("/", b"\0\0\0\0"),
        ("//", b"very_long_member_name.o\0\n"),
        ("/0", b"payload"),
    ]);
    assert_eq!(
        names_and_bytes(&bytes),
        vec![("very_long_member_name.o".to_string(), b"payload".to_vec())]
    );
}

#[test]
fn long_names_are_looked_up_at_their_offset() {
    let bytes = archive(&[
        ("//", b"first_long_name.o\0second_long_name.o\0"),
        ("/18", b"two"),
        ("/0", b"one"),
        ("short.o", b"zero"),
    ]);
    assert_eq!(
        names_and_bytes(&bytes),
        vec![
            ("second_long_name.o".to_string(), b"two".to_vec()),
            ("first_long_name.o".to_string(), b"one".to_vec()),
            ("short.o".to_string(), b"zero".to_vec()),
        ]
    );
}

#[test]
fn a_later_string_table_replaces_the_earlier_one() {
    let bytes = archive(&[("//", b"old\0"), ("/0", b"a"), ("//", b"new\0"), ("/0", b"b")]);
    assert_eq!(
        names_and_bytes(&bytes),
        vec![("old".to_string(), b"a".to_vec()), ("new".to_string(), b"b".to_vec())]
    );
}

#[test]
fn members_come_in_file_order_without_the_symbol_table() {
    let bytes = archive(&[
        ("b.o/", b"22"),
        ("/", b"symbols"),
        ("a.o/", b"1"),
        ("/", b"more symbols"),
        ("c.o/", b"333"),
    ]);
    assert_eq!(
        names_and_bytes(&bytes),
        vec![
            ("b.o/".to_string(), b"22".to_vec()),
            ("a.o/".to_string(), b"1".to_vec()),
            ("c.o/".to_string(), b"333".to_vec()),
        ]
    );
}

#[test]
fn members_of_odd_size_are_followed_by_one_byte_of_padding() {
    let bytes = archive(&[("a", b"123"), ("b", b"45"), ("c", b"6")]);
    assert_eq!(bytes.len() % 2, 0);
    let members = names_and_bytes(&bytes);
    assert_eq!(members.len(), 3);
    assert_eq!(members[1], ("b".to_string(), b"45".to_vec()));
    assert_eq!(members[2], ("c".to_string(), b"6".to_vec()));
    // the padding after the last member may be missing
    assert_eq!(names_and_bytes(&bytes[..bytes.len() - 1]), members);
}

#[test]
fn an_archive_with_no_member_is_empty() {
    assert_eq!(names_and_bytes(b"!<arch>\n"), vec![]);
    assert_eq!(names_and_bytes(&archive(&[("/", b""), ("//", b"x\0")])), vec![]);
}

#[test]
fn a_wrong_signature_is_refused() {
    assert_eq!(Parser::parse_inner(b"").err(), Some(LinkError::BadArchiveSignature));
    assert_eq!(Parser::parse_inner(b"!<arch>").err(), Some(LinkError::BadArchiveSignature));
    assert_eq!(Parser::parse_inner(b"!<arch>\r").err(), Some(LinkError::BadArchiveSignature));
    assert_eq!(Parser::parse_inner(b"?<arch>\nrest").err(), Some(LinkError::BadArchiveSignature));
}

#[test]
fn a_truncated_archive_is_refused() {
    let bytes = archive(&[("a.o", b"0123456789")]);
    // the payload is cut short
    assert_eq!(
        Parser::parse_inner(&bytes[..bytes.len() - 1]).err(),
        Some(LinkError::TruncatedArchive)
    );
    // the header is cut short
    assert_eq!(Parser::parse_inner(&bytes[..8 + 59]).err(), Some(LinkError::TruncatedArchive));
    assert_eq!(Parser::parse_inner(&bytes[..9]).err(), Some(LinkError::TruncatedArchive));
    assert!(Parser::parse_inner(&bytes[..8 + 60 + 10]).is_ok());
}

#[test]
fn a_size_field_that_is_no_number_is_refused() {
    for size in ["", "x", "1 2", "-1", "+1", "99999999999999999999"] {
        let mut bytes = b"!<arch>\n".to_vec();
        header(&mut bytes, "a.o", size);
        bytes.extend_from_slice(b"12");
        assert_eq!(Parser::parse_inner(&bytes).err(), Some(LinkError::TruncatedArchive));
    }
    let mut bytes = b"!<arch>\n".to_vec();
    header(&mut bytes, "a.o", "  2");
    bytes.extend_from_slice(b"12");
    assert_eq!(names_and_bytes(&bytes), vec![("a.o".to_string(), b"12".to_vec())]);
}

#[test]
fn a_long_name_before_any_string_table_is_refused() {
    let bytes = archive(&[("/0", b"payload")]);
    assert_eq!(Parser::parse_inner(&bytes).err(), Some(LinkError::MissingStringTable));
    let bytes = archive(&[("a.o", b"fine"), ("/12", b"payload"), ("//", b"late\0")]);
    assert_eq!(Parser::parse_inner(&bytes).err(), Some(LinkError::MissingStringTable));
}

#[test]
fn a_long_name_with_a_bad_offset_is_refused() {
    let bytes = archive(&[("//", b"name\0"), ("/x", b"payload")]);
    assert_eq!(Parser::parse_inner(&bytes).err(), Some(LinkError::TruncatedArchive));
    // an offset past the end of the table names the empty string
    let bytes = archive(&[("//", b"name\0"), ("/50", b"payload")]);
    assert_eq!(names_and_bytes(&bytes), vec![(String::new(), b"payload".to_vec())]);
}

fn entry(name: &str, size: &str) -> ArchiveEntry {
    let mut bytes = Vec::new();
    header(&mut bytes, name, size);
    let mut cursor = 0;
    let e: ArchiveEntry = read_struct(&bytes, &mut cursor).unwrap();
    assert_eq!(cursor, 60);
    e
}

#[test]
fn the_header_of_a_member_is_decoded_field_by_field() {
    let e = entry("hello.o/", "1234");
    assert_eq!(&e.file_name, b"hello.o/        ");
    assert_eq!(&e.timestamp, b"1700000000  ");
    assert_eq!(&e.owner_id, b"1000  ");
    assert_eq!(&e.group_id, b"1000  ");
    assert_eq!(&e.file_mode, b"100644  ");
    assert_eq!(&e.file_size, b"1234      ");
    assert_eq!(e.end_marker, 0x0a60);
    assert_eq!(e.get_size(), Ok(1234));
    assert_eq!(e.get_name(&None), Ok("hello.o/".to_string()));
    assert!(!e.is_symbol_table() && !e.is_string_table());
    assert!(e.has_prefix(b"hello") && !e.has_prefix(b"help"));
    assert!(e.has_prefix(b""));
}

#[test]
fn the_tables_of_an_archive_are_told_by_their_names() {
    assert!(entry("/", "0").is_symbol_table());
    assert!(!entry("/", "0").is_string_table());
    assert!(entry("//", "0").is_string_table());
    assert!(!entry("//", "0").is_symbol_table());
    assert!(!entry("/7", "0").is_symbol_table());
    assert!(!entry("/7", "0").is_string_table());
    assert_eq!(entry("/", "0").get_name(&None), Ok("/".to_string()));
    assert_eq!(entry("//", "0").get_name(&None), Ok("//".to_string()));
    assert_eq!(entry("/7", "0").get_name(&None), Err(LinkError::MissingStringTable));
    let table = Some(StrTable::new(b"zero.o\0 seven.o \0".to_vec(), 17));
    assert_eq!(entry("/7", "0").get_name(&table), Ok("seven.o".to_string()));
    assert_eq!(entry("/0", "0").get_name(&table), Ok("zero.o".to_string()));
    assert_eq!(entry("plain", "0").get_name(&table), Ok("plain".to_string()));
    assert_eq!(entry("x", "nine").get_size(), Err(LinkError::TruncatedArchive));
}

#[test]
fn a_library_is_taken_from_the_first_directory_that_has_it() {
    assert_eq!(Parser::file_name("c"), "libc.a");
    assert_eq!(Parser::file_name(""), "lib.a");
    let dirs = Parser::new(Some(vec!["/a".to_string(), "/b".to_string(), "/c".to_string()]));
    assert_eq!(dirs.libraries.as_ref().unwrap().len(), 3);
    assert_eq!(dirs.select(&vec![false, true, true]), Ok(1));
    assert_eq!(dirs.select(&vec![true, false, false]), Ok(0));
    assert_eq!(dirs.select(&vec![false, false, false]), Err(LinkError::ArchiveNotFound));
    assert_eq!(dirs.select(&vec![]), Err(LinkError::ArchiveNotFound));
    assert_eq!(Parser::new(None).select(&vec![true]), Err(LinkError::ArchiveNotFound));
}
