use pak::meta::SIZING_BYTES;
use pak::wire::{put_blob, put_u64, to_bytes};
use pak::{
    Pak, PakBuilder, PakError, PakFault, PakIndex, PakPointer, PakPointerSet, PakQuery,
    PakSizing, PakSource, PakTypedPointer, PakUntypedPointer, PakValue,
};

fn open(bytes: Vec<u8>) -> Result<Pak, PakError> {
    Pak::new(PakSource::new(bytes))
}

fn stored(builder: &mut PakBuilder, tag: &str, bytes: &[u8], indices: Vec<PakIndex>) -> PakTypedPointer {
    builder.store(bytes.to_vec(), tag, indices).with_type(tag)
}

fn library() -> (Pak, Vec<PakTypedPointer>) {
    let mut builder = PakBuilder::new();
    let mut pointers = Vec::new();
    for (i, (name, year)) in [("a", 1990u64), ("b", 2000), ("c", 2010), ("b", 2020)].iter().enumerate() {
        let indices = vec![
            PakIndex::of("name", PakValue::String(name.to_string())),
            PakIndex::of("year", PakValue::Uint(*year)),
        ];
        pointers.push(stored(&mut builder, "Book", &[i as u8; 3], indices));
    }
    (builder.build_in_memory().unwrap(), pointers)
}

fn set_of(pointers: &[&PakTypedPointer]) -> Vec<PakTypedPointer> {
    let mut all: Vec<PakTypedPointer> = pointers.iter().map(|p| (*p).clone()).collect();
    all.sort_by_key(|p| p.offset);
    all
}

fn sorted(set: PakPointerSet) -> Vec<PakTypedPointer> {
    let mut all = set.items;
    all.sort_by_key(|p| p.offset);
    all
}

#[test]
fn header_is_checked_when_a_pak_is_opened() {
    assert!(matches!(open(vec![]), Err(PakError::Io)));
    assert!(matches!(open(vec![0; 23]), Err(PakError::Io)));
    // Sizes that promise metadata that is not there.
    let sizing = PakSizing { meta_size: 5, indices_size: 0, vault_size: 8 };
    assert!(matches!(open(to_bytes(&sizing)), Err(PakError::Io)));
    // Sizes that do not add up to a 64-bit number.
    let sizing = PakSizing { meta_size: u64::MAX, indices_size: 0, vault_size: 8 };
    assert!(matches!(open(to_bytes(&sizing)), Err(PakError::Corruption)));
    let sizing = PakSizing { meta_size: 1, indices_size: u64::MAX - 30, vault_size: 0 };
    assert!(matches!(open(to_bytes(&sizing)), Err(PakError::Corruption)));
    // Metadata that is no metadata.
    let sizing = PakSizing { meta_size: 3, indices_size: 0, vault_size: 8 };
    let mut bytes = to_bytes(&sizing);
    bytes.extend([1, 2, 3]);
    assert!(matches!(open(bytes), Err(PakError::Decode)));
    // Metadata whose name is no text.
    let mut meta = Vec::new();
    put_blob(&mut meta, &[0xff]);
    for _ in 0..3 {
        put_u64(&mut meta, 0);
    }
    let sizing = PakSizing { meta_size: meta.len() as u64, indices_size: 0, vault_size: 8 };
    let mut bytes = to_bytes(&sizing);
    bytes.extend(meta);
    assert!(matches!(open(bytes), Err(PakError::Decode)));
}

#[test]
fn artifact_is_laid_out_in_four_parts() {
    let mut builder = PakBuilder::new().with_name("lib");
    builder.set_author("me");
    builder.set_description("books");
    builder.set_name("library");
    stored(&mut builder, "Book", &[7, 8, 9], vec![]);
    assert_eq!(builder.size(), 3);
    assert_eq!(builder.len(), 1);
    let (bytes, sizing, meta) = builder.build_internal().unwrap();
    assert_eq!(meta.name, "library");
    assert_eq!(meta.version, "1.0");
    assert_eq!(&bytes[0..24], &to_bytes(&sizing)[..]);
    assert_eq!(SIZING_BYTES, 24);
    assert_eq!(
        bytes.len() as u64,
        24 + sizing.meta_size + sizing.indices_size + sizing.vault_size
    );
    let meta_end = 24 + sizing.meta_size as usize;
    assert_eq!(&bytes[24..meta_end], &to_bytes(&meta)[..]);
    assert_eq!(
        &bytes[24..meta_end],
        &bincode::serialize(&("library", "1.0", "books", "me")).unwrap()[..]
    );
    let vault_at = meta_end + sizing.indices_size as usize;
    // No index, so the directory is an empty list.
    assert_eq!(&bytes[meta_end..vault_at], &[0u8; 8]);
    // The vault is written as a serializer writes a byte vector.
    assert_eq!(&bytes[vault_at..], &bincode::serialize(&vec![7u8, 8, 9]).unwrap()[..]);
    assert_eq!(sizing.vault_size, bincode::serialized_size(&vec![7u8, 8, 9]).unwrap());
    let pak = open(bytes).unwrap();
    assert_eq!(pak.get_vault_start(), vault_at as u64 + 8);
    assert_eq!(pak.get_indices_start(), meta_end as u64);
    assert_eq!(pak.size(), pak.source.len() as u64);
    assert_eq!(pak.read_bytes(&PakPointer::new_untyped(0, 3)).unwrap(), vec![7, 8, 9]);
    assert_eq!(pak.read_bytes(&PakPointer::new_untyped(1, 2)).unwrap(), vec![8, 9]);
    assert!(matches!(pak.read_bytes(&PakPointer::new_untyped(1, 3)), Err(PakError::Io)));
    assert!(pak.fetch_indices().unwrap().is_empty());
}

#[test]
fn stored_bytes_are_read_back_by_their_pointers() {
    let mut builder = PakBuilder::new();
    let first = builder.store(vec![1, 2, 3], "A", vec![]);
    let second = builder.store(vec![], "B", vec![]);
    let third = builder.store(vec![4, 5], "A", vec![PakIndex::of("k", PakValue::Uint(1))]);
    assert_eq!(first, PakPointer::Typed(PakTypedPointer::new(0, 3, "A")));
    assert_eq!(second, PakPointer::Typed(PakTypedPointer::new(3, 0, "B")));
    assert_eq!(third, PakPointer::Typed(PakTypedPointer::new(3, 2, "A")));
    assert_eq!(builder.size(), 5);
    assert_eq!(builder.len(), 3);
    let pak = builder.build_in_memory().unwrap();
    assert_eq!(pak.read_bytes(&first).unwrap(), vec![1, 2, 3]);
    assert_eq!(pak.read_bytes(&second).unwrap(), Vec::<u8>::new());
    assert_eq!(pak.read_bytes(&third).unwrap(), vec![4, 5]);
    let found = pak.query_pointers(&PakQuery::equals("k", 1u64)).unwrap();
    assert_eq!(found.items, vec![PakTypedPointer::new(3, 2, "A")]);
    assert_eq!(pak.read_bytes(&found.items[0].clone().into_pointer()).unwrap(), vec![4, 5]);
}

#[test]
fn comparisons_find_what_was_filed() {
    let (pak, p) = library();
    let find = |query: PakQuery| sorted(pak.query_pointers(&query).unwrap());
    assert_eq!(find(PakQuery::equals("name", "b")), set_of(&[&p[1], &p[3]]));
    assert_eq!(find(PakQuery::equals("name", "z")), set_of(&[]));
    assert_eq!(find(PakQuery::less_than("year", 2000u64)), set_of(&[&p[0]]));
    assert_eq!(find(PakQuery::less_than_or_equal("year", 2000u64)), set_of(&[&p[0], &p[1]]));
    assert_eq!(find(PakQuery::greater_than("year", 2000u64)), set_of(&[&p[2], &p[3]]));
    assert_eq!(
        find(PakQuery::greater_than_or_equal("year", 2000u64)),
        set_of(&[&p[1], &p[2], &p[3]])
    );
    assert_eq!(find(PakQuery::greater_than("name", "a")), set_of(&[&p[1], &p[2], &p[3]]));
    // A signed value and a float are compared with the unsigned keys.
    assert_eq!(find(PakQuery::less_than("year", 2005i32)), set_of(&[&p[0], &p[1]]));
    assert_eq!(
        find(PakQuery::GreaterThan("year".to_string(), PakValue::Float(2009.5f64.to_bits()))),
        set_of(&[&p[2], &p[3]])
    );
    let r = pak.query_pointers(&PakQuery::equals("title", "b"));
    assert!(matches!(r, Err(PakError::IndexMissing(key)) if key == "title"));
}

#[test]
fn unions_and_intersections_combine_the_parts() {
    let (pak, p) = library();
    let find = |query: PakQuery| sorted(pak.query_pointers(&query).unwrap());
    let old = || PakQuery::less_than("year", 2005u64);
    let named = || PakQuery::equals("name", "b");
    assert_eq!(find(old()), set_of(&[&p[0], &p[1]]));
    assert_eq!(find(named()), set_of(&[&p[1], &p[3]]));
    assert_eq!(find(old() | named()), set_of(&[&p[0], &p[1], &p[3]]));
    assert_eq!(find(old() & named()), set_of(&[&p[1]]));
    assert_eq!(find(old().or(named())), set_of(&[&p[0], &p[1], &p[3]]));
    assert_eq!(find(old().and(named())), set_of(&[&p[1]]));
    assert_eq!(find((old() | named()) & PakQuery::greater_than("year", 1995u64)), set_of(&[&p[1], &p[3]]));
    assert_eq!(find(pak::query::less_than_equal("year", 1990u64) | pak::query::greater_than_equal("year", 2020u64)), set_of(&[&p[0], &p[3]]));
    assert_eq!(find(pak::query::equals("name", "c") & pak::query::less_than("year", 2000u64)), set_of(&[]));
    // The failure of a part is the failure of the whole.
    let r = pak.query_pointers(&(old() | PakQuery::equals("nothing", 1u64)));
    assert!(matches!(r, Err(PakError::IndexMissing(key)) if key == "nothing"));
    let r = pak.query_pointers(&(PakQuery::equals("nothing", 1u64) & old()));
    assert_eq!(r.unwrap_err().kind(), PakFault::IndexMissing);
}

#[test]
fn pointer_sets_hold_each_pointer_once() {
    let a = PakTypedPointer::new(0, 1, "T");
    let b = PakTypedPointer::new(1, 1, "T");
    let c = PakTypedPointer::new(1, 1, "U");
    let mut set = PakPointerSet::new();
    assert_eq!(set.len(), 0);
    set.insert(a.clone());
    set.insert(b.clone());
    set.insert(a.clone());
    assert_eq!(set.len(), 2);
    assert!(set.contains(&a));
    assert!(set.contains(&b));
    assert!(!set.contains(&c));
    let mut other = PakPointerSet::new();
    other.insert_all(&vec![b.clone(), c.clone(), c.clone()]);
    assert_eq!(other.len(), 2);
    let mut both = PakPointerSet::new();
    both.insert_all(&set.items);
    let union = both.union(&other);
    assert_eq!(union.items, vec![a.clone(), b.clone(), c.clone()]);
    let common = set.intersection(&other);
    assert_eq!(common.items, vec![b.clone()]);
}

#[test]
fn pointers_and_their_tags() {
    let typed = PakTypedPointer::new(3, 4, "T").into_pointer();
    let untyped = PakPointer::new_untyped(3, 4);
    assert_eq!(typed.offset(), 3);
    assert_eq!(typed.size(), 4);
    assert_eq!(typed.type_tag(), "T");
    assert_eq!(untyped.type_tag(), "Untyped");
    assert_eq!(typed.as_untyped(), PakUntypedPointer::new(3, 4));
    assert_eq!(untyped.as_untyped().as_pointer(), untyped);
    assert!(typed.matches("T"));
    assert!(!typed.matches("U"));
    assert!(untyped.matches("U"));
    assert_eq!(untyped.clone().with_type("U"), PakTypedPointer::new(3, 4, "U"));
    assert_eq!(typed.clone().with_type("U"), PakTypedPointer::new(3, 4, "T"));
    assert_ne!(typed, untyped);
    assert_eq!(PakTypedPointer::default(), PakTypedPointer::new(0, 0, ""));
    assert_eq!(PakUntypedPointer::default(), PakUntypedPointer::new(0, 0));
    assert!(pak::pak::check_type(&typed, "T").is_ok());
    assert!(matches!(
        pak::pak::check_type(&typed, "U"),
        Err(PakError::TypeMismatch(found, wanted)) if found == "T" && wanted == "U"
    ));
    let test = pak::pointer::Test::new(1, 2);
    assert_eq!((test.get_a(), test.get_b()), (1, 2));
}

#[test]
fn source_reads_exactly_the_named_bytes() {
    let source = PakSource::new(vec![0, 1, 2, 3, 4, 5]);
    assert_eq!(source.len(), 6);
    assert_eq!(source.read(&PakPointer::new_untyped(1, 2), 0).unwrap(), vec![1, 2]);
    assert_eq!(source.read(&PakPointer::new_untyped(1, 2), 3).unwrap(), vec![4, 5]);
    assert_eq!(source.read(&PakPointer::new_untyped(6, 0), 0).unwrap(), Vec::<u8>::new());
    assert!(matches!(source.read(&PakPointer::new_untyped(1, 2), 4), Err(PakError::Io)));
    assert!(matches!(source.read(&PakPointer::new_untyped(u64::MAX, 1), u64::MAX), Err(PakError::Io)));
    assert!(matches!(source.read(&PakPointer::new_untyped(0, u64::MAX), 0), Err(PakError::Io)));
}

#[test]
fn errors_have_kinds() {
    assert_eq!(PakError::Io.kind(), PakFault::Io);
    assert_eq!(PakError::Decode.kind(), PakFault::Decode);
    assert_eq!(PakError::Corruption.kind(), PakFault::Corruption);
    assert_eq!(PakError::IndexMissing("k".to_string()).kind(), PakFault::IndexMissing);
    assert_eq!(
        PakError::TypeMismatch("a".to_string(), "b".to_string()).kind(),
        PakFault::TypeMismatch
    );
    for fault in [
        PakFault::Io,
        PakFault::Decode,
        PakFault::TypeMismatch,
        PakFault::IndexMissing,
        PakFault::Corruption,
    ] {
        assert_eq!(PakError::of(fault).kind(), fault);
    }
}
