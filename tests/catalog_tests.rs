use organomenar::id::{generate_random_id, id_from_words};
use organomenar::radical::UiRadical;

const ALL: [UiRadical; 14] = [
    UiRadical::F,
    UiRadical::Cl,
    UiRadical::Br,
    UiRadical::C,
    UiRadical::Amina,
    UiRadical::Eter,
    UiRadical::Fenol,
    UiRadical::Alcohol,
    UiRadical::Cetona,
    UiRadical::Aldehid,
    UiRadical::Nitril,
    UiRadical::Amida,
    UiRadical::Ester,
    UiRadical::Carboxil,
];

#[test]
fn valences() {
    assert_eq!(UiRadical::C.valencia(), 4);
    assert_eq!(UiRadical::Cetona.valencia(), 2);
    assert_eq!(UiRadical::Ester.valencia(), 2);
    assert_eq!(UiRadical::Eter.valencia(), 2);
    assert_eq!(UiRadical::F.valencia(), 1);
    assert_eq!(UiRadical::Carboxil.valencia(), 1);
    assert!(ALL.iter().all(|r| (1..=4).contains(&r.valencia())));
}

#[test]
fn element_flags() {
    let carbon: Vec<UiRadical> = ALL.iter().copied().filter(|r| r.contains_carbon()).collect();
    assert_eq!(
        carbon,
        vec![
            UiRadical::C,
            UiRadical::Fenol,
            UiRadical::Cetona,
            UiRadical::Aldehid,
            UiRadical::Nitril,
            UiRadical::Amida,
            UiRadical::Ester,
            UiRadical::Carboxil
        ]
    );
    let nitrogen: Vec<UiRadical> = ALL.iter().copied().filter(|r| r.contains_nitrogen()).collect();
    assert_eq!(nitrogen, vec![UiRadical::Amina, UiRadical::Nitril, UiRadical::Amida]);
    let oxygen: Vec<UiRadical> = ALL.iter().copied().filter(|r| r.contains_oxygen()).collect();
    assert_eq!(
        oxygen,
        vec![
            UiRadical::Eter,
            UiRadical::Fenol,
            UiRadical::Alcohol,
            UiRadical::Cetona,
            UiRadical::Aldehid,
            UiRadical::Ester,
            UiRadical::Carboxil
        ]
    );
}

#[test]
fn symbols() {
    assert_eq!(UiRadical::C.symbol(), "C");
    assert_eq!(UiRadical::Amina.symbol(), "NH2");
    assert_eq!(UiRadical::Amida.symbol(), "CONH2");
    assert_eq!(UiRadical::Carboxil.symbol(), "COOH");
    assert_eq!(UiRadical::Eter.symbol(), "O");
    assert_eq!(UiRadical::Fenol.symbol(), "Fenol");
}

#[test]
fn identifier_words() {
    assert_eq!(id_from_words(0, 0, 0, 5), 5);
    assert_eq!(id_from_words(1, 2, 3, 4), (1u128 << 96) | (2u128 << 64) | (3u128 << 32) | 4);
    assert_eq!(
        id_from_words(u32::MAX, u32::MAX, u32::MAX, u32::MAX),
        u128::MAX
    );
}

#[test]
fn random_identifiers_differ() {
    let a = generate_random_id();
    let b = generate_random_id();
    assert_ne!(a, b);
    assert!(a > u32::MAX as u128 || b > u32::MAX as u128);
}
