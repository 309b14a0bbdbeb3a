use dataserver::bits::{decode, encode};
use dataserver::data_store::{
    datafile_id, datafile_ids, devide_up, new_package, Data, DataSet, Field, FieldDecoder, MetaData,
};
use dataserver::endian::{push_be, push_le, read_le_u16, read_le_u64};

fn field(id: u8, name: &str, offset: u8, length: u8) -> Field {
    Field { id, name: name.to_owned(), offset, length }
}

fn meta(key: u64, fields: Vec<Field>) -> MetaData {
    MetaData { name: "weather".to_owned(), description: "roof".to_owned(), key, fields }
}

#[test]
fn encode_then_decode_gives_the_value_back() {
    let mut line = [0u8; 4];
    encode(1000, &mut line, 3, 11);
    assert_eq!(decode(&line, 3, 11), 1000);
    encode(5, &mut line, 14, 3);
    assert_eq!(decode(&line, 14, 3), 5);
    assert_eq!(decode(&line, 3, 11), 1000);
}

#[test]
fn bits_are_laid_out_lowest_first() {
    let mut line = [0u8; 2];
    encode(1, &mut line, 0, 1);
    assert_eq!(line, [1, 0]);
    encode(0b11, &mut line, 7, 2);
    assert_eq!(line, [0b1000_0001, 0b0000_0001]);
    assert_eq!(decode(&[0xff, 0xff], 4, 8), 0xff);
}

#[test]
fn encode_keeps_only_the_low_bits() {
    let mut line = [0u8; 1];
    encode(0b1111, &mut line, 2, 2);
    assert_eq!(decode(&line, 2, 2), 0b11);
    assert_eq!(line[0], 0b0000_1100);
}

#[test]
fn endian_helpers() {
    let bytes = [0x34, 0x12, 1, 0, 0, 0, 0, 0, 0, 0x80];
    assert_eq!(read_le_u16(&bytes, 0), 0x1234);
    assert_eq!(read_le_u64(&bytes, 2), 0x8000_0000_0000_0001);
    let mut out = Vec::new();
    push_be(&mut out, 0x0102, 2);
    push_le(&mut out, 0x0102, 3);
    assert_eq!(out, vec![1, 2, 2, 1, 0]);
}

#[test]
fn devide_up_rounds_up() {
    assert_eq!(devide_up(16, 8), 2);
    assert_eq!(devide_up(17, 8), 3);
    assert_eq!(devide_up(0, 8), 0);
}

#[test]
fn fieldsum_is_bytes_of_a_line() {
    let m = meta(1, vec![field(0, "a", 0, 10), field(1, "b", 10, 7)]);
    assert_eq!(m.fieldsum(), 3);
    let m = meta(1, vec![field(0, "a", 0, 8), field(1, "b", 8, 8)]);
    assert_eq!(m.fieldsum(), 2);
}

#[test]
fn package_header() {
    assert_eq!(new_package(0x0102, 7, 100), vec![2, 1, 7, 0, 0, 0, 0, 0]);
}

fn data_with_set() -> Data {
    let mut data = Data::new();
    let set = DataSet { metadata: meta(0xAABB, vec![field(0, "t", 0, 8), field(1, "h", 8, 8)]) };
    data.insert_set(1, set);
    data
}

fn packet(set: u16, key: u64, payload: &[u8]) -> Vec<u8> {
    let mut p = Vec::new();
    p.extend_from_slice(&set.to_le_bytes());
    p.extend_from_slice(&key.to_le_bytes());
    p.extend_from_slice(payload);
    p
}

#[test]
fn data_packets_are_checked() {
    let data = data_with_set();
    let ok = packet(1, 0xAABB, &[5, 6]);
    match data.check_new_data(&ok) {
        Ok((id, line)) => {
            assert_eq!(id, 1);
            assert_eq!(line, vec![5, 6]);
        }
        Err(()) => panic!("packet refused"),
    }
    assert!(data.check_new_data(&packet(1, 0xAABC, &[5, 6])).is_err());
    assert!(data.check_new_data(&packet(2, 0xAABB, &[5, 6])).is_err());
    assert!(data.check_new_data(&packet(1, 0xAABB, &[5])).is_err());
    assert!(data.check_new_data(&[1, 0, 0]).is_err());
}

#[test]
fn error_packets_are_authenticated() {
    let data = data_with_set();
    assert_eq!(data.authenticate_error_packet(&packet(1, 0xAABB, &[0, 3])), Ok(1));
    assert_eq!(data.authenticate_error_packet(&packet(1, 0xAABB, &[0])), Err(()));
    assert_eq!(data.authenticate_error_packet(&packet(1, 1, &[0, 3])), Err(()));
    // a stored data packet long enough for an error report authenticates as one
    let p = packet(1, 0xAABB, &[5, 6]);
    assert!(data.check_new_data(&p).is_ok());
    assert_eq!(data.authenticate_error_packet(&p), Ok(1));
}

#[test]
fn dataset_ids_are_handed_out_in_order() {
    let mut data = Data::new();
    assert_eq!(data.allocate_dataset_id(), 1);
    assert_eq!(data.allocate_dataset_id(), 2);
    let mut data = Data::with_existing_ids(&[4, 2, 9]);
    assert_eq!(data.allocate_dataset_id(), 10);
    let mut data = Data::with_existing_ids(&[]);
    assert_eq!(data.allocate_dataset_id(), 1);
}

#[test]
fn datafile_names() {
    assert_eq!(datafile_id("12.dat"), Some(12));
    assert_eq!(datafile_id("12.yaml"), None);
    assert_eq!(datafile_id("x.dat"), None);
    assert_eq!(datafile_id("70000.dat"), None);
    let names = vec!["3.dat".to_owned(), "3.yaml".to_owned(), "7.dat".to_owned()];
    assert_eq!(datafile_ids(&names), vec![3, 7]);
}

#[test]
fn decode_info_packs_fields() {
    let set = DataSet {
        metadata: meta(1, vec![field(0, "a", 0, 4), field(1, "b", 4, 10), field(2, "c", 14, 3)]),
    };
    let info = set.get_decode_info(&[2, 0]);
    assert_eq!(info.field_lenghts, vec![3, 4]);
    assert_eq!(info.field_offsets, vec![0, 3]);
}

#[test]
fn update_recodes_the_requested_fields() {
    let set = DataSet {
        metadata: meta(1, vec![field(0, "a", 0, 4), field(1, "b", 4, 10), field(2, "c", 14, 3)]),
    };
    let mut line = [0u8; 3];
    encode(9, &mut line, 0, 4);
    encode(700, &mut line, 4, 10);
    encode(5, &mut line, 14, 3);
    let out = set.get_update(&line, 0x0102030405060708, &[2, 1], 0x0A0B);
    // 13 bits of fields take 2 bytes, then 8 bytes, the set id and the time stamp
    assert_eq!(out.len(), 2 + 18);
    assert_eq!(decode(&out, 0, 3), 5);
    assert_eq!(decode(&out, 3, 10), 700);
    assert_eq!(&out[10..12], &[0x0A, 0x0B]);
    assert_eq!(&out[12..20], &[1, 2, 3, 4, 5, 6, 7, 8]);
}

#[test]
fn field_decoder_reads_chosen_fields_in_dataset_order() {
    let fields = vec![field(0, "a", 0, 8), field(1, "b", 8, 4), field(2, "c", 12, 4)];
    let d = FieldDecoder::from_fields_and_id(&fields, &[2, 0]);
    assert_eq!(d.layout, vec![(0, 8), (12, 4)]);
    let mut line = [0u8; 2];
    encode(200, &mut line, 0, 8);
    encode(3, &mut line, 8, 4);
    encode(9, &mut line, 12, 4);
    let mut out = vec![7u32];
    d.decode(&line, &mut out);
    assert_eq!(out, vec![7, 200, 9]);
    let none = FieldDecoder::from_fields_and_id(&fields, &[5]);
    assert!(none.layout.is_empty());
}

#[test]
fn client_reads_back_what_the_update_carries() {
    let set = DataSet {
        metadata: meta(1, vec![field(0, "a", 0, 4), field(1, "b", 4, 10), field(2, "c", 14, 3)]),
    };
    let mut line = [0u8; 3];
    encode(9, &mut line, 0, 4);
    encode(700, &mut line, 4, 10);
    encode(5, &mut line, 14, 3);
    let ids = [1u8, 0, 2];
    let out = set.get_update(&line, 42, &ids, 1);
    let info = set.get_decode_info(&ids);
    let read: Vec<u32> = (0..ids.len())
        .map(|i| decode(&out, info.field_offsets[i], info.field_lenghts[i]))
        .collect();
    assert_eq!(read, vec![700, 9, 5]);
}

#[test]
fn new_datasets_get_fresh_ids() {
    let mut data = Data::with_existing_ids(&[4, 2]);
    let set = || DataSet { metadata: meta(7, vec![field(0, "a", 0, 8)]) };
    assert_eq!(data.add_set(set()), 5);
    assert_eq!(data.add_set(set()), 6);
    assert!(data.sets.contains_key(&5) && data.sets.contains_key(&6));
    assert_eq!(data.free_dataset_id, 7);
}
