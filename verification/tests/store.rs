use pak::{
    Pak, PakBuilder, PakError, PakIndex, PakIndexIdentifier, PakItemDeserialize,
    PakItemSearchable, PakItemSerialize, PakItemTyped, PakPointer, PakQuery, PakResult,
    PakSizing, PakValue, IntoPakValue,
};
use pak::wire::Codec;

#[derive(Clone, Debug, PartialEq, Eq)]
struct Person {
    first_name: String,
    last_name: String,
    age: u32,
}

impl PakItemTyped for Person {
    fn type_tag() -> String {
        "store::Person".to_string()
    }
}

impl PakItemSerialize for Person {
    fn into_bytes(&self) -> PakResult<Vec<u8>> {
        bincode::serialize(&(&self.first_name, &self.last_name, self.age))
            .map_err(|_| PakError::Decode)
    }
}

impl PakItemDeserialize for Person {
    fn from_bytes(bytes: &[u8]) -> PakResult<Self> {
        let (first_name, last_name, age): (String, String, u32) =
            bincode::deserialize(bytes).map_err(|_| PakError::Decode)?;
        Ok(Person { first_name, last_name, age })
    }
}

impl PakItemSearchable for Person {
    fn get_indices(&self) -> Vec<PakIndex> {
        let mut indices = Vec::new();
        indices.push(PakIndex::new("first_name", self.first_name.clone()));
        indices.push(PakIndex::new("last_name", self.last_name.clone()));
        indices.push(PakIndex::new("age", self.age));
        indices
    }
}

#[derive(Clone, Debug, PartialEq, Eq)]
enum PetKind {
    Dog,
    Cat,
}

impl IntoPakValue for PetKind {
    fn into_pak_value(self) -> PakValue {
        match self {
            PetKind::Dog => "dog".into(),
            PetKind::Cat => "cat".into(),
        }
    }
}

#[derive(Clone, Debug, PartialEq, Eq)]
struct Pet {
    name: String,
    age: u32,
    owner: PakPointer,
    kind: PetKind,
}

impl PakItemTyped for Pet {
    fn type_tag() -> String {
        "store::Pet".to_string()
    }
}

impl PakItemSerialize for Pet {
    fn into_bytes(&self) -> PakResult<Vec<u8>> {
        let kind: u32 = match self.kind {
            PetKind::Dog => 0,
            PetKind::Cat => 1,
        };
        let owner = (self.owner.offset(), self.owner.size(), self.owner.type_tag().to_string());
        bincode::serialize(&(&self.name, self.age, owner, kind)).map_err(|_| PakError::Decode)
    }
}

impl PakItemDeserialize for Pet {
    fn from_bytes(bytes: &[u8]) -> PakResult<Self> {
        let (name, age, owner, kind): (String, u32, (u64, u64, String), u32) =
            bincode::deserialize(bytes).map_err(|_| PakError::Decode)?;
        let kind = match kind {
            0 => PetKind::Dog,
            1 => PetKind::Cat,
            _ => return Err(PakError::Decode),
        };
        let owner = pak::PakTypedPointer::new(owner.0, owner.1, &owner.2).into_pointer();
        Ok(Pet { name, age, owner, kind })
    }
}

impl PakItemSearchable for Pet {
    fn get_indices(&self) -> Vec<PakIndex> {
        let mut indices = Vec::new();
        indices.push(PakIndex::new("name", self.name.clone()));
        indices.push(PakIndex::new("age", self.age));
        indices.push(PakIndex::new("kind", self.kind.clone()));
        indices
    }
}

fn person(first_name: &str, last_name: &str, age: u32) -> Person {
    Person { first_name: first_name.to_string(), last_name: last_name.to_string(), age }
}

fn build_data_base() -> Pak {
    let mut builder = PakBuilder::new();

    let owner1 = builder.pak(person("John", "Doe", 30)).unwrap();
    let owner2 = builder.pak(person("Jane", "Doe", 25)).unwrap();
    builder.pak(person("Alice", "Smith", 28)).unwrap();
    builder.pak(person("Bob", "Johnson", 35)).unwrap();
    builder.pak(person("Charlie", "Brown", 40)).unwrap();
    builder.pak(person("John", "Jacob", 45)).unwrap();

    let pet1 = Pet { name: "Fido".to_string(), age: 5, owner: owner1.clone(), kind: PetKind::Dog };
    let pet2 = Pet { name: "Whiskers".to_string(), age: 3, owner: owner2, kind: PetKind::Cat };
    let pet3 = Pet { name: "Bella".to_string(), age: 7, owner: owner1, kind: PetKind::Dog };

    builder.pak(pet1).unwrap();
    builder.pak(pet2).unwrap();
    builder.pak(pet3).unwrap();

    builder.build_in_memory().unwrap()
}

#[test]
fn size_of_pak_sizes() {
    let sizing = PakSizing { meta_size: 0, indices_size: 0, vault_size: 0 };
    let mut out = Vec::new();
    sizing.put(&mut out);
    assert_eq!(out.len() as u64, 24);
    let size = bincode::serialized_size(&(0u64, 0u64, 0u64)).unwrap();
    assert_eq!(size, 24);
}

#[test]
fn query() {
    let mut builder = PakBuilder::new();
    builder.pak(person("John", "Doe", 30)).unwrap();
    builder.pak(person("Jane", "Doe", 25)).unwrap();
    builder.pak(person("Alice", "Smith", 28)).unwrap();
    builder.pak(person("John", "Jacob", 28)).unwrap();
    let pak = builder.build_in_memory().unwrap();

    let query = pak::query::greater_than("age", 26) & pak::query::equals("first_name", "John");

    let results = pak.query::<(Person,)>(query).unwrap();
    println!("RESULTS {results:?}");
    assert_eq!(results.len(), 2);
}

#[test]
fn pak_read() {
    let pak = build_data_base();
    let person: Person = pak.read_err(&PakPointer::new_untyped(0, 27)).unwrap();

    assert_eq!(person.first_name, "John");
    assert_eq!(person.last_name, "Doe");
}

#[test]
fn pak_query_equal() {
    let pak = build_data_base();

    let people = pak.query::<(Person,)>("first_name".equals("John")).unwrap();
    assert_eq!(people.len(), 2);
}

#[test]
fn pak_query_less_than() {
    let pak = build_data_base();

    let (people, pets) = pak.query::<(Person, Pet)>("age".less_than_or_equal(26)).unwrap();

    assert_eq!(people.len(), 1);
    assert_eq!(pets.len(), 3);
}

#[test]
fn pak_query_greater_than() {
    let pak = build_data_base();

    let (people, pets) = pak.query::<(Person, Pet)>("age".greater_than(26)).unwrap();

    assert_eq!(people.len(), 5);
    assert_eq!(pets.len(), 0);
}

#[test]
fn pak_query_greater_than_equal() {
    let pak = build_data_base();

    let (people, pets) = pak.query::<(Person, Pet)>("age".greater_than_or_equal(25)).unwrap();

    assert_eq!(people.len(), 6);
    assert_eq!(pets.len(), 0);
}

#[test]
fn pak_query_less_than_equal() {
    let pak = build_data_base();

    let (people, pets) = pak.query::<(Person, Pet)>("age".less_than_or_equal(25)).unwrap();

    assert_eq!(people.len(), 1);
    assert_eq!(pets.len(), 3);
}

#[test]
fn compound_union_query() {
    let pak = build_data_base();

    let query = "age".less_than(30) | "first_name".equals("John");
    let (people, pets) = pak.query::<(Person, Pet)>(query).unwrap();

    assert_eq!(people.len(), 4);
    assert_eq!(pets.len(), 3);
}

#[test]
fn compound_intersection_query() {
    let pak = build_data_base();

    let query = "age".greater_than(25) & "first_name".equals("John");
    let (people, pets) = pak.query::<(Person, Pet)>(query).unwrap();

    assert_eq!(people.len(), 2);
    assert_eq!(pets.len(), 0);
}

#[test]
fn equality_query_finds_both_johns() {
    let pak = build_data_base();
    let mut people = pak.query::<(Person,)>(PakQuery::equals("first_name", "John")).unwrap();
    people.sort_by_key(|p| p.age);
    assert_eq!(people, vec![person("John", "Doe", 30), person("John", "Jacob", 45)]);
}

#[test]
fn empty_builder_builds_and_has_no_index() {
    let pak = PakBuilder::new().build_in_memory().unwrap();
    assert_eq!(pak.size(), pak.source.len() as u64);
    let r = pak.query::<(Person,)>(PakQuery::equals("age", 1u32));
    assert!(matches!(r, Err(PakError::IndexMissing(key)) if key == "age"));
}

#[test]
fn single_item_is_found_under_each_key() {
    let mut builder = PakBuilder::new();
    let pointer = builder.pak(person("Ada", "Lovelace", 36)).unwrap();
    let pak = builder.build_in_memory().unwrap();
    for query in [
        PakQuery::equals("first_name", "Ada"),
        PakQuery::equals("last_name", "Lovelace"),
        PakQuery::equals("age", 36u32),
    ] {
        let found = pak.query_pointers(&query).unwrap();
        assert_eq!(found.len(), 1);
        assert_eq!(found.items[0].clone().into_pointer(), pointer);
    }
}

#[test]
fn metadata_is_read_back() {
    let builder = PakBuilder::new().with_name("n").with_description("d").with_author("a");
    let pak = builder.build_in_memory().unwrap();
    assert_eq!(pak.name(), "n");
    assert_eq!(pak.description(), "d");
    assert_eq!(pak.author(), "a");
    assert_eq!(pak.version(), "1.0");
}

#[test]
fn typed_pointer_is_not_read_as_another_type() {
    let mut builder = PakBuilder::new();
    let pointer = builder.pak(person("Ada", "Lovelace", 36)).unwrap();
    let pak = builder.build_in_memory().unwrap();
    let r: PakResult<Pet> = pak.read_err(&pointer);
    match r {
        Err(PakError::TypeMismatch(found, wanted)) => {
            assert_eq!(found, "store::Person");
            assert_eq!(wanted, "store::Pet");
        },
        _ => panic!("a type mismatch was expected"),
    }
    let back: Person = pak.read_err(&pointer).unwrap();
    assert_eq!(back, person("Ada", "Lovelace", 36));
    assert!(pak.read::<Pet>(&pointer).is_none());
}

#[test]
fn read_outside_the_vault_fails() {
    let pak = build_data_base();
    let r = pak.read_bytes(&PakPointer::new_untyped(1 << 40, 8));
    assert!(matches!(r, Err(PakError::Io)));
}

#[test]
fn pointers_take_the_tag_of_the_item_type() {
    let pointer = PakPointer::new_typed::<Person>(3, 4);
    assert_eq!(pointer.type_tag(), "store::Person");
    assert_eq!(pointer.offset(), 3);
    assert_eq!(pointer.size(), 4);
    assert!(pointer.type_is_match::<Person>());
    assert!(!pointer.type_is_match::<Pet>());
    assert!(PakPointer::new_untyped(0, 1).type_is_match::<Pet>());
    let typed = PakPointer::new_untyped(5, 6).into_typed::<Pet>();
    assert_eq!(typed, pak::PakTypedPointer::new(5, 6, "store::Pet"));
    let kept = pointer.into_typed::<Pet>();
    assert_eq!(kept, pak::PakTypedPointer::new(3, 4, "store::Person"));
}

#[test]
fn items_without_index_entries_are_stored_but_not_found() {
    let mut builder = PakBuilder::new();
    let hidden = builder.pak_no_search(person("No", "Body", 1)).unwrap();
    let shown = builder.pak(person("Some", "Body", 2)).unwrap();
    assert_eq!(hidden.offset(), 0);
    assert_eq!(shown.offset(), hidden.size());
    assert_eq!(builder.len(), 2);
    assert_eq!(builder.size(), hidden.size() + shown.size());
    let pak = builder.build_in_memory().unwrap();
    let people = pak.query::<(Person,)>("last_name".equals("Body")).unwrap();
    assert_eq!(people, vec![person("Some", "Body", 2)]);
    let back: Person = pak.read_err(&hidden).unwrap();
    assert_eq!(back, person("No", "Body", 1));
}

#[test]
fn item_references_load_on_demand() {
    let mut builder = PakBuilder::new();
    let pointer = builder.pak(person("Ada", "Lovelace", 36)).unwrap();
    let pak = builder.build_in_memory().unwrap();
    let mut item = pak::item::PakItemRef::<Person>::pointer(pointer.clone());
    assert!(matches!(item, pak::item::PakItemRef::Ref(_)));
    item.load(&pak).unwrap();
    assert_eq!(item.get(), &person("Ada", "Lovelace", 36));
    item.get_mut().age = 37;
    item.load(&pak).unwrap();
    assert_eq!(item.get().age, 37);
    assert_eq!(item.unwrap_or_load(&pak).unwrap().age, 37);
    let fresh = pak::item::PakItemRef::<Person>::pointer(pointer.clone());
    assert_eq!(fresh.unwrap_or_load(&pak).unwrap().age, 36);
    let mut wrong = pak::item::PakItemRef::<Pet>::pointer(pointer);
    assert!(wrong.load(&pak).is_err());
    assert!(matches!(wrong, pak::item::PakItemRef::Ref(_)));
}

#[test]
fn groups_sort_items_by_type() {
    let pak = build_data_base();
    let (pets, people, more) = pak
        .query::<(Pet, Person, Pet)>("age".less_than(100u32))
        .unwrap();
    assert_eq!(people.len(), 6);
    assert_eq!(pets.len(), 3);
    assert_eq!(more, pets);
    let dogs = pak.query::<(Pet,)>("kind".equals(PetKind::Dog)).unwrap();
    assert_eq!(dogs.len(), 2);
    let owner: Person = pak.read_err(&dogs[0].owner).unwrap();
    assert_eq!(owner, person("John", "Doe", 30));
}

#[test]
fn empty_builder_lays_out_the_smallest_artifact() {
    let (out, sizing, meta) = PakBuilder::new().build_internal().unwrap();
    // Four texts, of which only the version holds anything: 8 + 8 + 3 + 8 + 8 bytes.
    assert_eq!(sizing.meta_size, 35);
    // A directory without lines is its count.
    assert_eq!(sizing.indices_size, 8);
    // An empty vault is its length.
    assert_eq!(sizing.vault_size, 8);
    assert_eq!(out.len(), 75);
    assert_eq!(&out[16..24], &8u64.to_le_bytes());
    assert_eq!(&out[67..], &[0u8; 8]);
    assert_eq!(meta.version, "1.0");
    let pak = PakBuilder::new().build_in_memory().unwrap();
    assert_eq!(pak.name(), "");
    assert_eq!(pak.author(), "");
    assert_eq!(pak.description(), "");
    assert_eq!(pak.version(), "1.0");
    assert_eq!(pak.size(), 75);
}

#[test]
fn item_is_read_from_the_bytes_that_a_pointer_names() {
    let ada = person("Ada", "Lovelace", 36);
    let bytes = ada.into_bytes().unwrap();
    let mut all = vec![9u8, 9, 9];
    all.extend_from_slice(&bytes);
    all.push(9);
    let pointer = PakPointer::new_untyped(3, bytes.len() as u64);
    assert_eq!(Person::from_pak(&all, pointer).unwrap(), ada);
    // One byte more than there is.
    let beyond = PakPointer::new_untyped(3, bytes.len() as u64 + 2);
    assert!(matches!(Person::from_pak(&all, beyond), Err(PakError::Io)));
    let far = PakPointer::new_untyped(u64::MAX, u64::MAX);
    assert!(matches!(Person::from_pak(&all, far), Err(PakError::Io)));
    // Bytes that are there but are no person.
    let short = PakPointer::new_untyped(0, 2);
    assert!(matches!(Person::from_pak(&all, short), Err(PakError::Decode)));
}
