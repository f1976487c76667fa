use kip_db::command::CommandData;
use kip_db::error::KvsError;
use kip_db::iterator::Seek;
use kip_db::ss_table::SsTable;

fn put(k: &str, v: &str) -> CommandData {
    CommandData::Put { key: k.as_bytes().to_vec(), value: v.as_bytes().to_vec() }
}

fn batch() -> Vec<CommandData> {
    vec![put("a", "1"), put("b", "2"), put("c", "3"), put("d", "4"), put("e", "5")]
}

#[test]
fn sstable_round_trip_part_size_two() {
    let cmds = batch();
    let (table, file) = SsTable::create_for_immutable_table(2, 7, &cmds, 0).unwrap();
    let keys: Vec<Vec<u8>> = table.get_sparse_index().iter().map(|e| e.key.clone()).collect();
    assert_eq!(keys, vec![b"a".to_vec(), b"c".to_vec(), b"e".to_vec()]);
    assert_eq!(table.get_score().start, b"a".to_vec());
    assert_eq!(table.get_score().end, b"e".to_vec());
    assert_eq!(table.query_with_file(&file, b"c").unwrap(), Some(put("c", "3")));
    assert_eq!(table.query_with_file(&file, b"f").unwrap(), None);

    let reopened = SsTable::restore_from_file(7, &file).unwrap();
    assert_eq!(reopened.get_meta_info(), table.get_meta_info());
    assert_eq!(reopened.get_gen(), 7);
    assert_eq!(reopened.get_score().start, table.get_score().start);
    assert_eq!(reopened.get_score().end, table.get_score().end);
    let a = table.get_sparse_index();
    let b = reopened.get_sparse_index();
    assert_eq!(a.len(), b.len());
    for i in 0..a.len() {
        assert_eq!(a[i].key, b[i].key);
        assert_eq!(a[i].pos, b[i].pos);
    }
    assert_eq!(reopened.query_with_file(&file, b"c").unwrap(), Some(put("c", "3")));
}

#[test]
fn sstable_every_key_found_and_others_absent() {
    let cmds = vec![put("b", "1"), put("d", "2"), put("f", "3"), put("h", "4"), put("j", "5"), put("l", "6"), put("n", "7")];
    for part in 1u64..=8 {
        let (table, file) = SsTable::create_for_immutable_table(part, 1, &cmds, 1).unwrap();
        for c in &cmds {
            assert_eq!(table.query_with_file(&file, c.get_key()).unwrap(), Some(c.clone()));
        }
        for k in ["a", "c", "e", "m", "o", "bb"] {
            assert_eq!(table.query_with_file(&file, k.as_bytes()).unwrap(), None);
        }
    }
}

#[test]
fn sstable_meta_info_layout() {
    let cmds = batch();
    let (table, file) = SsTable::create_for_immutable_table(2, 3, &cmds, 4).unwrap();
    let m = table.get_meta_info();
    assert_eq!(m.level, 4);
    assert_eq!(m.version, 0);
    assert_eq!(m.part_size, 2);
    assert_eq!(m.data_len + m.index_len + 40, file.len() as u64);
    assert_eq!(table.get_level(), 4);
    assert_eq!(table.get_version(), 0);
    let footer = &file[file.len() - 40..];
    assert_eq!(footer[0..8].to_vec(), 4u64.to_be_bytes().to_vec());
    assert_eq!(footer[32..40].to_vec(), 2u64.to_be_bytes().to_vec());
    // The first frame: an eight-byte body length, then tag 0 and the key length.
    assert_eq!(file[0..8].to_vec(), 11u64.to_be_bytes().to_vec());
    assert_eq!(file[8], 0);
    assert_eq!(file[9..17].to_vec(), 1u64.to_be_bytes().to_vec());
    assert_eq!(file[17], b'a');
    assert_eq!(file[18], b'1');
}

#[test]
fn sstable_get_all_data_in_file_order() {
    let cmds = vec![put("a", "1"), CommandData::Remove { key: b"b".to_vec() }, put("c", "3")];
    let (table, file) = SsTable::create_for_immutable_table(2, 1, &cmds, 0).unwrap();
    assert_eq!(table.get_all_data(&file).unwrap(), cmds.clone());
    assert_eq!(table.query_with_file(&file, b"b").unwrap(), Some(CommandData::Remove { key: b"b".to_vec() }));
}

#[test]
fn sstable_empty_batch_refused() {
    assert!(matches!(SsTable::create_for_immutable_table(2, 1, &vec![], 0), Err(KvsError::DataEmpty)));
}

#[test]
fn sstable_restore_errors() {
    assert!(matches!(SsTable::restore_from_file(1, &[0u8; 10]), Err(KvsError::KeyNotFound)));
    // A footer that points at a `Remove` record.
    let mut file = Vec::new();
    CommandData::Remove { key: b"x".to_vec() }.write_to(&mut file);
    let index_len = file.len() as u64;
    for n in [0u64, 0, 0, index_len, 1] {
        file.extend_from_slice(&n.to_be_bytes());
    }
    assert!(matches!(SsTable::restore_from_file(1, &file), Err(KvsError::NotMatchCmd)));
    // A footer whose record runs past the end of the file.
    let mut bad = vec![0u8; 40];
    bad[31] = 200;
    assert!(matches!(SsTable::restore_from_file(1, &bad), Err(KvsError::KeyNotFound)));
}

#[test]
fn sstable_level_reassignment() {
    let (mut table, _file) = SsTable::create_for_immutable_table(2, 9, &batch(), 0).unwrap();
    table.level(3);
    assert_eq!(table.get_level(), 3);
    assert_eq!(SsTable::collect_gen(vec![&table]).unwrap(), vec![9]);
    assert_eq!(SsTable::first_index_with_level(&vec![&table], |l, g| if l == 3 && g == 9 { Some(5) } else { None }, 3), 5);
    assert_eq!(SsTable::first_index_with_level(&vec![&table], |_, _| None, 3), 0);
    assert_eq!(SsTable::first_index_with_level(&vec![], |_, _| Some(4), 3), 0);
}

#[test]
fn sstable_fusion_over_tables() {
    let (t1, _) = SsTable::create_for_immutable_table(2, 1, &vec![put("c", "1"), put("f", "2")], 0).unwrap();
    let (t2, _) = SsTable::create_for_immutable_table(2, 2, &vec![put("a", "1"), put("d", "2")], 0).unwrap();
    let f = kip_db::score::Score::fusion_from_vec_ss_table(&vec![&t1, &t2]).unwrap();
    assert_eq!(f.start, b"a".to_vec());
    assert_eq!(f.end, b"f".to_vec());
    assert_eq!(kip_db::score::Score::get_vec_score(&vec![&t1, &t2]).len(), 2);
}

#[test]
fn command_frame_round_trip() {
    let cmds = vec![put("key", "value"), CommandData::Remove { key: b"gone".to_vec() }, put("", "")];
    let mut zone = Vec::new();
    for c in &cmds {
        c.write_to(&mut zone);
    }
    assert_eq!(CommandData::from_zone_to_vec(&zone), Some(cmds.clone()));
    assert_eq!(CommandData::find_key_with_zone_unpack(&zone, b"gone").unwrap(), Some(cmds[1].clone()));
    assert!(matches!(CommandData::find_key_with_zone_unpack(&zone[..zone.len() - 1], b"gone"), Err(KvsError::Decode)));
}

#[test]
fn zone_lookup_returns_last_match() {
    let mut zone = Vec::new();
    put("k", "old").write_to(&mut zone);
    put("k", "new").write_to(&mut zone);
    assert_eq!(CommandData::find_key_with_zone_unpack(&zone, b"k").unwrap(), Some(put("k", "new")));
}

#[test]
fn seek_key() {
    let k = b"abc".as_slice();
    assert_eq!(Seek::Forward(k).get_key(), Some(k));
    assert_eq!(Seek::Backward(k).get_key(), Some(k));
    assert_eq!(Seek::First.get_key(), None);
    assert_eq!(Seek::Last.get_key(), None);
}

#[test]
fn sstable_equality_is_by_footer() {
    let (t1, file) = SsTable::create_for_immutable_table(2, 1, &batch(), 0).unwrap();
    let t2 = SsTable::restore_from_file(5, &file).unwrap();
    assert!(t1 == t2);
    let (t3, _) = SsTable::create_for_immutable_table(3, 1, &batch(), 0).unwrap();
    assert!(t1 != t3);
}

#[test]
fn sstable_repeated_key_at_block_boundary() {
    let cmds = vec![put("a", "1"), put("a", "2"), put("b", "3")];
    let (table, file) = SsTable::create_for_immutable_table(1, 1, &cmds, 0).unwrap();
    let keys: Vec<Vec<u8>> = table.get_sparse_index().iter().map(|e| e.key.clone()).collect();
    assert_eq!(keys, vec![b"a".to_vec(), b"b".to_vec()]);
    // The entry for "a" points at the later block.
    assert_eq!(table.query_with_file(&file, b"a").unwrap(), Some(put("a", "2")));
    let reopened = SsTable::restore_from_file(1, &file).unwrap();
    let a = table.get_sparse_index();
    let b = reopened.get_sparse_index();
    assert_eq!(a.len(), b.len());
    for i in 0..a.len() {
        assert_eq!(a[i].key, b[i].key);
        assert_eq!(a[i].pos, b[i].pos);
    }
}

#[test]
fn sstable_restore_from_footer_and_record() {
    let (table, file) = SsTable::create_for_immutable_table(2, 4, &batch(), 0).unwrap();
    let meta = SsTable::meta_from_footer(&file[file.len() - 40..]).unwrap();
    assert_eq!(meta, table.get_meta_info());
    assert!(SsTable::meta_from_footer(&file[..39]).is_none());
    let start = meta.data_len as usize;
    let record = &file[start..start + meta.index_len as usize];
    let reopened = SsTable::restore_from_record(4, meta, record).unwrap();
    assert!(reopened == table);
    assert_eq!(reopened.get_score().start, b"a".to_vec());
    // Only the data region is needed to list the commands.
    assert_eq!(table.get_all_data(&file[..start]).unwrap(), batch());
}

#[test]
fn sstable_restore_passes_decoder_errors_on() {
    let mut record = Vec::new();
    CommandData::Put { key: vec![0xc1], value: vec![] }.write_to(&mut record);
    let meta = kip_db::ss_table::MetaInfo { level: 0, version: 0, data_len: 0, index_len: record.len() as u64, part_size: 1 };
    assert!(matches!(SsTable::restore_from_record(1, meta, &record), Err(KvsError::Serde(_))));
}

#[test]
fn sstable_repeated_keys_found_for_every_part_size() {
    let cmds = vec![put("a", "1"), put("b", "2"), put("b", "3"), put("b", "4"), put("c", "5"), put("c", "6"), put("d", "7")];
    for part in 1u64..=8 {
        let (table, file) = SsTable::create_for_immutable_table(part, 1, &cmds, 0).unwrap();
        for c in &cmds {
            let found = table.query_with_file(&file, c.get_key()).unwrap().unwrap();
            assert_eq!(found.get_key(), c.get_key());
        }
        assert_eq!(table.query_with_file(&file, b"e").unwrap(), None);
        let reopened = SsTable::restore_from_file(1, &file).unwrap();
        assert_eq!(reopened.get_sparse_index().len(), table.get_sparse_index().len());
    }
}
