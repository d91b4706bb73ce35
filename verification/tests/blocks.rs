use one_brc::block::process_block;
use one_brc::result::TemperStatResult;

const TEST_STR_100: &str = "\
愛媛県今治市;20.8
Brussels;14.9
Lake Tekapo;6.6
Astana;-14.2
Москва;-13.7
San Diego;22.3
Kinshasa;32.1
Cape Town;26.7
Colombo;8.8
Bangkok;31.5
Mango;43.9
New Delhi;23.2
Hiroshima;10.4
Xi'an;5.5
Assab;21.5
Jayapura;24.7
London;29.8
Lusaka;29.6
Anadyr;-33.3
Harare;22.7
London;1.3
Cape Town;28.3
Johannesburg;11.7
Novosibirsk;19.5
Alexandra;16.5
Barcelona;18.2
Las Palmas de Gran Canaria;11.4
Andorra la Vella;21.6
Marseille;-2.6
Nairobi;17.4
Kuopio;0.2
Bujumbura;19.9
Vancouver;3.9
Bata;41.3
Kunming;6.7
Tamale;30.1
Reggane;33.2
Roseau;20.0
Maun;27.4
Maputo;44.7
Austin;12.8
Baku;20.8
Kolkata;28.7
Brisbane;16.5
Rome;15.2
Berlin;-7.0
Bissau;31.4
Kandi;29.9
Dar es Salaam;23.9
Dili;34.4
St. Louis;12.7
Taipei;3.0
Seattle;17.5
Timbuktu;19.2
Kyiv;6.2
Bergen;14.9
Zagreb;11.4
Salt Lake City;12.8
Kingston;45.3
Thiès;17.1
Oklahoma City;-7.4
Petropavlovsk-Kamchatsky;5.4
Manama;41.3
San Francisco;31.9
Dikson;-13.4
Napier;11.2
Murmansk;-13.6
Tamale;33.4
Podgorica;16.7
Yerevan;-2.6
Napoli;6.1
Lake Havasu City;23.8
Parakou;24.9
Maputo;31.2
Perth;34.7
Monaco;7.9
Manama;17.6
Nakhon Ratchasima;37.1
Zagreb;11.3
Tokyo;-11.5
Stockholm;9.8
Sydney;17.4
Kunming;-4.2
San Antonio;7.4
Bratislava;2.4
Yakutsk;-0.6
Palm Springs;25.7
Erbil;32.1
Cotonou;17.2
Nashville;5.5
Lagos;25.4
Abidjan;17.9
Johannesburg;19.8
Kinshasa;39.9
Gangtok;25.4
Tauranga;1.6
Salt Lake City;28.5
Khartoum;34.4
Livingstone;42.2
Phnom Penh;32.9
";

#[test]
fn test_process_block() {
    let block = TEST_STR_100.as_bytes();
    let (map, lines, errors) = process_block(block, 100);
    assert_eq!(90, map.len());
    assert_eq!(100, lines);
    assert_eq!(0, errors);
}

#[test]
fn test() {
    let mut r = TemperStatResult::new();
    let (m, l, e) = process_block(TEST_STR_100.as_bytes(), 100);
    r.aggregate(&m);
    println!("{l}\t{e}\n{}", String::from_utf8(r.render()).unwrap());
}

#[test]
fn last_delimiter_wins() {
    // the key is everything before the last `;`, so this line's
    // temperature tail is `234234`, which the parser rejects
    let (map, lines, errors) = process_block(b"bad;234234;234234\nok;1.0\n", 16);
    assert_eq!(2, lines);
    assert_eq!(1, errors);
    assert_eq!(1, map.len());
    let st = map.get(b"ok".as_slice()).unwrap();
    assert_eq!((10, 10, 10, 1), *st);
}

#[test]
fn missing_delimiter_is_an_error() {
    let (map, lines, errors) = process_block(b"no delimiter here\nA;1.0\n", 16);
    assert_eq!(2, lines);
    assert_eq!(1, errors);
    assert_eq!(1, map.len());
}

#[test]
fn malformed_temperatures_update_nothing() {
    let (map, lines, errors) = process_block(b"A;100.1\nB;1 .0\nC;+0.0\n", 16);
    assert_eq!(3, lines);
    assert_eq!(3, errors);
    assert_eq!(0, map.len());
}

#[test]
fn partial_last_line_is_dropped() {
    let (map, lines, errors) = process_block(b"A;1.0\nB;2.0", 16);
    assert_eq!(1, lines);
    assert_eq!(0, errors);
    assert_eq!(1, map.len());
    assert!(map.get(b"A".as_slice()).is_some());
    assert!(map.get(b"B".as_slice()).is_none());
}

#[test]
fn same_key_updates_in_place() {
    let (map, lines, errors) = process_block(b"A;1.0\nA;3.0\nA;2.0\n", 16);
    assert_eq!(3, lines);
    assert_eq!(0, errors);
    assert_eq!(1, map.len());
    let st = map.get(b"A".as_slice()).unwrap();
    assert_eq!((10, 30, 60, 3), *st);
}

#[test]
fn empty_name_is_a_valid_key() {
    let (map, lines, errors) = process_block(b";5.0\n", 4);
    assert_eq!(1, lines);
    assert_eq!(0, errors);
    assert_eq!(1, map.len());
    let st = map.get(b"".as_slice()).unwrap();
    assert_eq!((50, 50, 50, 1), *st);
}

#[test]
fn aggregate_merges_across_blocks() {
    let (m1, _, _) = process_block(b"A;1.0\nB;2.0\n", 8);
    let (m2, _, _) = process_block(b"A;3.0\n", 8);
    let mut r = TemperStatResult::new();
    r.aggregate(&m1);
    r.aggregate(&m2);
    assert_eq!(
        "{A=1.0/2.0/3.0, B=2.0/2.0/2.0}",
        String::from_utf8(r.render()).unwrap()
    );
}

#[test]
fn invalid_utf8_key_stays_internal_but_is_not_printed() {
    // 0xFF never occurs in valid UTF-8
    let (map, lines, errors) = process_block(b"\xFF\xFE;1.0\nA;2.0\n", 8);
    assert_eq!(2, lines);
    assert_eq!(0, errors);
    assert_eq!(2, map.len());
    let mut r = TemperStatResult::new();
    r.aggregate(&map);
    assert_eq!("{A=2.0/2.0/2.0}", String::from_utf8(r.render()).unwrap());
}
