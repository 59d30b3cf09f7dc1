use evenio::derive::{
    derive_query, Assembly, Data, DeriveError, DeriveInput, Fields, GenericParam,
};

#[test]
fn enums_and_unions_are_refused() {
    let input = DeriveInput { generics: vec![], data: Data::Enum };
    let err = derive_query(&input).unwrap_err();
    assert_eq!(err, DeriveError::Enum);
    assert_eq!(err.message(), "cannot derive `Query` on enums");

    let input = DeriveInput { generics: vec![GenericParam::Lifetime], data: Data::Union };
    let err = derive_query(&input).unwrap_err();
    assert_eq!(err, DeriveError::Union);
    assert_eq!(err.message(), "cannot derive `Query` on unions");
}

#[test]
fn a_struct_with_named_fields_delegates_to_the_tuple_of_its_fields() {
    let input = DeriveInput {
        generics: vec![
            GenericParam::Type,
            GenericParam::Lifetime,
            GenericParam::Const,
            GenericParam::Lifetime,
        ],
        data: Data::Struct(Fields::Named(3)),
    };
    let derived = derive_query(&input).unwrap();
    assert_eq!(derived.lifetimes, vec![1, 3]);
    assert_eq!(derived.tuple, vec![0, 1, 2]);
    assert_eq!(derived.sources, vec![0, 1, 2]);
    assert_eq!(derived.assembly, Assembly::Named);
}

#[test]
fn a_struct_with_positional_fields_takes_the_tuple_in_order() {
    let input = DeriveInput { generics: vec![], data: Data::Struct(Fields::Unnamed(2)) };
    let derived = derive_query(&input).unwrap();
    assert!(derived.lifetimes.is_empty());
    assert_eq!(derived.tuple, vec![0, 1]);
    assert_eq!(derived.sources, vec![0, 1]);
    assert_eq!(derived.assembly, Assembly::Positional);
}

#[test]
fn a_unit_struct_has_the_empty_tuple() {
    let input = DeriveInput { generics: vec![GenericParam::Type], data: Data::Struct(Fields::Unit) };
    let derived = derive_query(&input).unwrap();
    assert!(derived.lifetimes.is_empty());
    assert!(derived.tuple.is_empty());
    assert!(derived.sources.is_empty());
    assert_eq!(derived.assembly, Assembly::Unit);
    assert_eq!(Fields::Unit.len(), 0);
    assert_eq!(Fields::Named(4).len(), 4);
}
