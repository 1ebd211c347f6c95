use chiral_db_sources::chembl::{EntryChembl, SourceChembl};

const KNOWN_SMILES: &str = "COc1c(O)cc(O)c(C(=N)Cc2ccc(O)cc2)c1O";
const KNOWN_INCHI: &str = "InChI=1S/C15H15NO5/c1-21-15-12(19)7-11(18)13(14(15)20)10(16)6-8-2-4-9(17)5-3-8/h2-5,7,16-20H,6H2,1H3";
const KNOWN_INCHI_KEY: &str = "OPELSESCRGGKAM-UHFFFAOYSA-N";

/// One hundred well-formed lines with distinct ids, among them the
/// known CHEMBL503634 record.
fn fixture_lines() -> Vec<String> {
    let mut lines: Vec<String> = Vec::new();
    lines.push(format!(
        "CHEMBL503634\t{}\t{}\t{}",
        KNOWN_SMILES, KNOWN_INCHI, KNOWN_INCHI_KEY
    ));
    for i in 0..99 {
        lines.push(format!(
            "CHEMBL{:06}\tC{}\tInChI=1S/C{}\tKEY{:06}",
            i, i, i, i
        ));
    }
    lines
}

#[test]
fn test_source_chembl() {
    let lines = fixture_lines();
    let sc = SourceChembl::new(&lines).unwrap();
    assert_eq!(sc.len(), 100);
    let ec = sc.get(&String::from("CHEMBL503634")).unwrap();
    assert_eq!(ec.smiles, KNOWN_SMILES);
    assert_eq!(ec.inchi, KNOWN_INCHI);
    assert_eq!(ec.inchi_key, KNOWN_INCHI_KEY);

    let data_all = sc.get_all();
    assert_eq!(data_all.len(), 100);

    let selected = sc.choices(10);
    assert_eq!(selected.len(), 10);
}

#[test]
fn test_len_counts_distinct_lines() {
    let lines = vec![
        String::from("A1\tC\tInChI=1S/a\tKA"),
        String::from("A2\tCC\tInChI=1S/b\tKB"),
        String::from("A3\tCCC\tInChI=1S/c\tKC"),
    ];
    let sc = SourceChembl::new(&lines).unwrap();
    assert_eq!(sc.len(), 3);
}

#[test]
fn test_get_known_fields() {
    let lines = vec![
        String::from("A1\tC\tInChI=1S/a\tKA"),
        String::from("A2\tCC\tInChI=1S/b\tKB"),
    ];
    let sc = SourceChembl::new(&lines).unwrap();
    let ec = sc.get(&String::from("A2")).unwrap();
    assert_eq!(ec.chembl_id, "A2");
    assert_eq!(ec.smiles, "CC");
    assert_eq!(ec.inchi, "InChI=1S/b");
    assert_eq!(ec.inchi_key, "KB");
}

#[test]
fn test_get_unknown_is_none() {
    let lines = vec![String::from("A1\tC\tInChI=1S/a\tKA")];
    let sc = SourceChembl::new(&lines).unwrap();
    assert!(sc.get(&String::from("A2")).is_none());
    assert!(sc.get(&String::from("")).is_none());
}

#[test]
fn test_get_all_entries_found_under_own_id() {
    let lines = vec![
        String::from("A1\tC\tInChI=1S/a\tKA"),
        String::from("A2\tCC\tInChI=1S/b\tKB"),
        String::from("A3\tCCC\tInChI=1S/c\tKC"),
    ];
    let sc = SourceChembl::new(&lines).unwrap();
    let all = sc.get_all();
    assert_eq!(all.len(), sc.len());
    for entry in all.iter() {
        let found = sc.get(&entry.chembl_id).unwrap();
        assert_eq!(found.chembl_id, entry.chembl_id);
        assert_eq!(found.smiles, entry.smiles);
        assert_eq!(found.inchi, entry.inchi);
        assert_eq!(found.inchi_key, entry.inchi_key);
    }
}

#[test]
fn test_smiles_id_pairs_parallel() {
    let lines = vec![
        String::from("A1\tC\tInChI=1S/a\tKA"),
        String::from("A2\tCC\tInChI=1S/b\tKB"),
        String::from("A3\tCCC\tInChI=1S/c\tKC"),
    ];
    let sc = SourceChembl::new(&lines).unwrap();
    let (smiles, ids) = sc.get_smiles_id_pairs();
    assert_eq!(smiles.len(), sc.len());
    assert_eq!(ids.len(), sc.len());
    for i in 0..ids.len() {
        let found = sc.get(&ids[i]).unwrap();
        assert_eq!(found.smiles, smiles[i]);
    }
}

#[test]
fn test_choices_exact_size_distinct_and_present() {
    let lines = vec![
        String::from("A1\tC\tInChI=1S/a\tKA"),
        String::from("A2\tCC\tInChI=1S/b\tKB"),
        String::from("A3\tCCC\tInChI=1S/c\tKC"),
        String::from("A4\tCCCC\tInChI=1S/d\tKD"),
        String::from("A5\tCCCCC\tInChI=1S/e\tKE"),
    ];
    let sc = SourceChembl::new(&lines).unwrap();
    let picked = sc.choices(3);
    assert_eq!(picked.len(), 3);
    for i in 0..picked.len() {
        let found = sc.get(&picked[i].chembl_id).unwrap();
        assert_eq!(found.smiles, picked[i].smiles);
        for j in 0..i {
            assert_ne!(picked[i].chembl_id, picked[j].chembl_id);
        }
    }
}

#[test]
fn test_choices_oversized_returns_all() {
    let lines = vec![
        String::from("A1\tC\tInChI=1S/a\tKA"),
        String::from("A2\tCC\tInChI=1S/b\tKB"),
        String::from("A3\tCCC\tInChI=1S/c\tKC"),
    ];
    let sc = SourceChembl::new(&lines).unwrap();
    let picked = sc.choices(10);
    assert_eq!(picked.len(), 3);
    for id in ["A1", "A2", "A3"] {
        assert!(picked.iter().any(|e| e.chembl_id == id));
    }
}

#[test]
fn test_reload_discards_previous_contents() {
    let lines_a = vec![
        String::from("A1\tC\tInChI=1S/a\tKA"),
        String::from("A2\tCC\tInChI=1S/b\tKB"),
    ];
    let lines_b = vec![String::from("B1\tN\tInChI=1S/n\tKN")];
    let mut sc = SourceChembl::new(&lines_a).unwrap();
    assert!(sc.get(&String::from("A1")).is_some());
    sc.load(&lines_b).unwrap();
    assert_eq!(sc.len(), 1);
    assert!(sc.get(&String::from("A1")).is_none());
    assert!(sc.get(&String::from("A2")).is_none());
    assert!(sc.get(&String::from("B1")).is_some());
}

#[test]
fn test_duplicate_id_last_wins() {
    let lines = vec![
        String::from("A1\tC\tInChI=1S/a\tKA"),
        String::from("A1\tO\tInChI=1S/o\tKO"),
    ];
    let sc = SourceChembl::new(&lines).unwrap();
    assert_eq!(sc.len(), 1);
    let ec = sc.get(&String::from("A1")).unwrap();
    assert_eq!(ec.smiles, "O");
    assert_eq!(ec.inchi, "InChI=1S/o");
    assert_eq!(ec.inchi_key, "KO");
}

#[test]
fn test_header_row_is_dropped() {
    let lines = vec![
        String::from("chembl_id\tcanonical_smiles\tstandard_inchi\tstandard_inchi_key"),
        String::from("A1\tC\tInChI=1S/a\tKA"),
    ];
    let sc = SourceChembl::new(&lines).unwrap();
    assert_eq!(sc.len(), 1);
    assert!(sc.get(&String::from("chembl_id")).is_none());
    assert!(sc.get(&String::from("A1")).is_some());
}

#[test]
fn test_malformed_line_fails_atomically() {
    let lines_good = vec![String::from("A1\tC\tInChI=1S/a\tKA")];
    let lines_bad = vec![
        String::from("B1\tN\tInChI=1S/n\tKN"),
        String::from("B2\tonly\ttwo"),
    ];
    let mut sc = SourceChembl::new(&lines_good).unwrap();
    let err = sc.load(&lines_bad).unwrap_err();
    assert_eq!(err.line, 1);
    assert_eq!(sc.len(), 0);
}

#[test]
fn test_new_on_malformed_line_fails() {
    let lines = vec![String::from("no tabs at all")];
    match SourceChembl::new(&lines) {
        Ok(_) => panic!("a malformed line must fail the construction"),
        Err(err) => assert_eq!(err.line, 0),
    }
}

#[test]
fn test_extra_columns_ignored() {
    let lines = vec![String::from("A1\tC\tInChI=1S/a\tKA\textra\tcolumns")];
    let sc = SourceChembl::new(&lines).unwrap();
    let ec = sc.get(&String::from("A1")).unwrap();
    assert_eq!(ec.inchi_key, "KA");
}

#[test]
fn test_empty_fields_are_kept() {
    let lines = vec![String::from("A1\t\tInChI=1S/a\t")];
    let sc = SourceChembl::new(&lines).unwrap();
    let ec = sc.get(&String::from("A1")).unwrap();
    assert_eq!(ec.smiles, "");
    assert_eq!(ec.inchi_key, "");
}

#[test]
fn test_entry_new_takes_first_four_fields() {
    let fields = vec![
        String::from("A1"),
        String::from("C"),
        String::from("InChI=1S/a"),
        String::from("KA"),
        String::from("ignored"),
    ];
    let ec = EntryChembl::new(fields);
    assert_eq!(ec.chembl_id, "A1");
    assert_eq!(ec.smiles, "C");
    assert_eq!(ec.inchi, "InChI=1S/a");
    assert_eq!(ec.inchi_key, "KA");
}
