use pdfsplice::document::{page_count, PdfDocument};
use pdfsplice::merge::merge_documents;
use pdfsplice::normalize::{normalize_page_tree, StructureError};
use pdfsplice::object::{PdfDict, PdfObj};

fn dict(entries: Vec<(&[u8], PdfObj)>) -> PdfDict {
    PdfDict {
        entries: entries.into_iter().map(|(k, v)| (k.to_vec(), v)).collect(),
    }
}

fn page(parent: u64, marker: i64) -> PdfObj {
    PdfObj::Dict(dict(vec![
        (b"Type", PdfObj::Name(b"Page".to_vec())),
        (b"Parent", PdfObj::Reference(parent)),
        (b"N", PdfObj::Integer(marker)),
    ]))
}

/// A document with `n` pages: catalog at 1, page-tree root at 2, pages at
/// 10, 11, ... with markers 1, 2, ...
fn sample_doc(n: u64) -> PdfDocument {
    let mut objects: Vec<(u64, PdfObj)> = Vec::new();
    let mut kids: Vec<PdfObj> = Vec::new();
    let mut pages: Vec<u64> = Vec::new();
    for i in 0..n {
        let id = 10 + i;
        objects.push((id, page(2, (i + 1) as i64)));
        kids.push(PdfObj::Reference(id));
        pages.push(id);
    }
    objects.push((
        1,
        PdfObj::Dict(dict(vec![
            (b"Type", PdfObj::Name(b"Catalog".to_vec())),
            (b"Pages", PdfObj::Reference(2)),
        ])),
    ));
    objects.push((
        2,
        PdfObj::Dict(dict(vec![
            (b"Type", PdfObj::Name(b"Pages".to_vec())),
            (b"Kids", PdfObj::Array(kids)),
            (b"Count", PdfObj::Integer(n as i64)),
        ])),
    ));
    PdfDocument { objects, pages, root: 1 }
}

fn lookup<'a>(doc: &'a PdfDocument, id: u64) -> &'a PdfObj {
    &doc.objects.iter().find(|e| e.0 == id).expect("object missing").1
}

fn entry<'a>(obj: &'a PdfObj, key: &[u8]) -> &'a PdfObj {
    let d = match obj {
        PdfObj::Dict(d) => d,
        _ => panic!("not a dictionary"),
    };
    &d.entries.iter().find(|e| e.0 == key).expect("key missing").1
}

fn maybe_entry<'a>(obj: &'a PdfObj, key: &[u8]) -> Option<&'a PdfObj> {
    let d = match obj {
        PdfObj::Dict(d) => d,
        _ => return None,
    };
    d.entries.iter().find(|e| e.0 == key).map(|e| &e.1)
}

fn marker_at(doc: &PdfDocument, position: u64) -> i64 {
    match entry(lookup(doc, position), b"N") {
        PdfObj::Integer(v) => *v,
        _ => panic!("marker is not an integer"),
    }
}

#[test]
fn merge_page_count_law() {
    // Nine destination pages, two source pages, five insertion points:
    // 9 + 5 * 2 = 19 pages.
    let dst = sample_doc(9);
    let src = sample_doc(2);
    let points: Vec<u32> = vec![0, 1, 2, 4, 8];
    let merged = merge_documents(&dst, &points, &src).expect("merge must succeed");
    assert_eq!(page_count(&merged), 19);
    assert_eq!(merged.pages, (1..=19).collect::<Vec<u64>>());
}

#[test]
fn merge_ordering_law() {
    // Destination pages A, B; one source page S; points [0, 1] give
    // S A S B.
    let dst = sample_doc(2);
    let src = sample_doc(1);
    let points: Vec<u32> = vec![0, 1];
    let merged = merge_documents(&dst, &points, &src).expect("merge must succeed");
    assert_eq!(page_count(&merged), 4);
    assert_eq!(marker_at(&merged, 1), 1); // S
    assert_eq!(marker_at(&merged, 2), 1); // A
    assert_eq!(marker_at(&merged, 3), 1); // S
    assert_eq!(marker_at(&merged, 4), 2); // B
}

#[test]
fn merge_ordering_scenario() {
    // The nine-by-two scenario: the source pair lands before pages 1, 2,
    // 3, 5 and 9 of the destination.
    let dst = sample_doc(9);
    let src = sample_doc(2);
    let points: Vec<u32> = vec![0, 1, 2, 4, 8];
    let merged = merge_documents(&dst, &points, &src).expect("merge must succeed");
    let expected: Vec<i64> = vec![1, 2, 1, 1, 2, 2, 1, 2, 3, 4, 1, 2, 5, 6, 7, 8, 1, 2, 9];
    for (i, want) in expected.iter().enumerate() {
        assert_eq!(marker_at(&merged, (i + 1) as u64), *want);
    }
}

#[test]
fn merge_without_insertion_points() {
    let dst = sample_doc(3);
    let src = sample_doc(2);
    let points: Vec<u32> = vec![];
    let merged = merge_documents(&dst, &points, &src).expect("merge must succeed");
    assert_eq!(page_count(&merged), 3);
    assert_eq!(marker_at(&merged, 1), 1);
    assert_eq!(marker_at(&merged, 3), 3);
}

#[test]
fn merge_rebuilds_roots() {
    let dst = sample_doc(3);
    let src = sample_doc(1);
    let points: Vec<u32> = vec![2];
    let merged = merge_documents(&dst, &points, &src).expect("merge must succeed");
    let catalog = lookup(&merged, merged.root);
    let pid = match entry(catalog, b"Pages") {
        PdfObj::Reference(id) => *id,
        _ => panic!("catalog's Pages is not a reference"),
    };
    let root = lookup(&merged, pid);
    assert!(matches!(entry(root, b"Count"), PdfObj::Integer(4)));
    match entry(root, b"Kids") {
        PdfObj::Array(kids) => {
            let ids: Vec<u64> = kids
                .iter()
                .map(|k| match k {
                    PdfObj::Reference(id) => *id,
                    _ => panic!("kid is not a reference"),
                })
                .collect();
            assert_eq!(ids, vec![1, 2, 3, 4]);
        }
        _ => panic!("Kids is not an array"),
    }
    // Every merged page is re-parented at the surviving root.
    for p in 1..=4u64 {
        match entry(lookup(&merged, p), b"Parent") {
            PdfObj::Reference(id) => assert_eq!(*id, pid),
            _ => panic!("Parent is not a reference"),
        }
    }
}

#[test]
fn merge_aborts_without_catalog() {
    // Neither input has a catalog: nothing is built, so nothing would be
    // written over the destination.
    let mut dst = sample_doc(2);
    dst.objects.retain(|e| e.0 != 1);
    let mut src = sample_doc(1);
    src.objects.retain(|e| e.0 != 1);
    let points: Vec<u32> = vec![0];
    assert!(merge_documents(&dst, &points, &src).is_none());
    // Nothing was built and the inputs stand exactly as before, so a
    // caller has nothing to write back.
    let mut expected = sample_doc(2);
    expected.objects.retain(|e| e.0 != 1);
    assert_eq!(dst, expected);
}

#[test]
fn merge_aborts_without_pages_root() {
    let mut dst = sample_doc(2);
    let mut src = sample_doc(1);
    // Untype both page-tree roots so no "Pages" dictionary remains.
    for doc in [&mut dst, &mut src] {
        for e in doc.objects.iter_mut() {
            if e.0 == 2 {
                e.1 = PdfObj::Dict(dict(vec![(b"Count", PdfObj::Integer(0))]));
            }
        }
    }
    let points: Vec<u32> = vec![0];
    assert!(merge_documents(&dst, &points, &src).is_none());
}

#[test]
fn merge_succeeds_with_catalog_from_source_only() {
    let mut dst = sample_doc(2);
    dst.objects.retain(|e| e.0 != 1);
    let src = sample_doc(1);
    let points: Vec<u32> = vec![0];
    let merged = merge_documents(&dst, &points, &src).expect("source catalog suffices");
    assert_eq!(page_count(&merged), 3);
}

#[test]
fn merge_drops_outlines() {
    let mut dst = sample_doc(2);
    dst.objects.push((
        7,
        PdfObj::Dict(dict(vec![(b"Type", PdfObj::Name(b"Outlines".to_vec()))])),
    ));
    let mut src = sample_doc(1);
    src.objects.push((
        8,
        PdfObj::Dict(dict(vec![(b"Type", PdfObj::Name(b"Outline".to_vec()))])),
    ));
    let points: Vec<u32> = vec![1];
    let merged = merge_documents(&dst, &points, &src).expect("merge must succeed");
    for (_, obj) in merged.objects.iter() {
        if let Some(PdfObj::Name(n)) = maybe_entry(obj, b"Type") {
            assert_ne!(n.as_slice(), b"Outlines");
            assert_ne!(n.as_slice(), b"Outline");
        }
    }
    // The rebuilt catalog carries no Outlines entry either.
    let catalog = lookup(&merged, merged.root);
    assert!(maybe_entry(catalog, b"Outlines").is_none());
}

#[test]
fn merge_removes_outlines_entry_from_catalog() {
    let mut dst = sample_doc(2);
    for e in dst.objects.iter_mut() {
        if e.0 == 1 {
            e.1 = PdfObj::Dict(dict(vec![
                (b"Type", PdfObj::Name(b"Catalog".to_vec())),
                (b"Pages", PdfObj::Reference(2)),
                (b"Outlines", PdfObj::Reference(7)),
            ]));
        }
    }
    let src = sample_doc(1);
    let points: Vec<u32> = vec![0];
    let merged = merge_documents(&dst, &points, &src).expect("merge must succeed");
    let catalog = lookup(&merged, merged.root);
    assert!(maybe_entry(catalog, b"Outlines").is_none());
    assert!(maybe_entry(catalog, b"Pages").is_some());
}

#[test]
fn merge_pages_union_first_wins() {
    // Both page-tree roots carry "MediaBox"-like custom entries; on a key
    // collision the first-encountered root's value survives, and keys only
    // the later root has are added.
    let mut dst = sample_doc(1);
    for e in dst.objects.iter_mut() {
        if e.0 == 2 {
            e.1 = PdfObj::Dict(dict(vec![
                (b"Type", PdfObj::Name(b"Pages".to_vec())),
                (b"Kids", PdfObj::Array(vec![PdfObj::Reference(10)])),
                (b"Count", PdfObj::Integer(1)),
                (b"Shared", PdfObj::Integer(111)),
            ]));
        }
    }
    let mut src = sample_doc(1);
    for e in src.objects.iter_mut() {
        if e.0 == 2 {
            e.1 = PdfObj::Dict(dict(vec![
                (b"Type", PdfObj::Name(b"Pages".to_vec())),
                (b"Kids", PdfObj::Array(vec![PdfObj::Reference(10)])),
                (b"Count", PdfObj::Integer(1)),
                (b"Shared", PdfObj::Integer(222)),
                (b"Extra", PdfObj::Integer(333)),
            ]));
        }
    }
    let points: Vec<u32> = vec![0];
    let merged = merge_documents(&dst, &points, &src).expect("merge must succeed");
    let catalog = lookup(&merged, merged.root);
    let pid = match entry(catalog, b"Pages") {
        PdfObj::Reference(id) => *id,
        _ => panic!("catalog's Pages is not a reference"),
    };
    let root = lookup(&merged, pid);
    assert!(matches!(entry(root, b"Shared"), PdfObj::Integer(111)));
    assert!(matches!(entry(root, b"Extra"), PdfObj::Integer(333)));
}

#[test]
fn normalize_even_is_noop() {
    let doc = sample_doc(2);
    assert!(matches!(normalize_page_tree(&doc), Ok(None)));
    let doc = sample_doc(0);
    assert!(matches!(normalize_page_tree(&doc), Ok(None)));
}

#[test]
fn normalize_odd_appends_page() {
    // A nine-page document normalizes to ten pages, an even count.
    let doc = sample_doc(9);
    let m = normalize_page_tree(&doc)
        .expect("well-shaped document")
        .expect("odd count must change the document");
    assert_eq!(page_count(&m), 10);
    assert_eq!(page_count(&m) % 2, 0);
    let fresh = *m.pages.last().unwrap();
    let new_page = lookup(&m, fresh);
    assert!(matches!(entry(new_page, b"Type"), PdfObj::Name(_)));
    assert!(matches!(entry(new_page, b"Parent"), PdfObj::Reference(2)));
    let root = lookup(&m, 2);
    assert!(matches!(entry(root, b"Count"), PdfObj::Integer(10)));
    match entry(root, b"Kids") {
        PdfObj::Array(kids) => {
            assert_eq!(kids.len(), 10);
            assert!(matches!(kids.last().unwrap(), PdfObj::Reference(id) if *id == fresh));
        }
        _ => panic!("Kids is not an array"),
    }
}

#[test]
fn normalize_structure_errors() {
    // Catalog missing: the root names nothing.
    let mut doc = sample_doc(1);
    doc.root = 99;
    assert_eq!(normalize_page_tree(&doc), Err(StructureError::CatalogMissing));

    // Pages reference missing from the catalog.
    let mut doc = sample_doc(1);
    for e in doc.objects.iter_mut() {
        if e.0 == 1 {
            e.1 = PdfObj::Dict(dict(vec![(b"Type", PdfObj::Name(b"Catalog".to_vec()))]));
        }
    }
    assert_eq!(normalize_page_tree(&doc), Err(StructureError::PagesRefMissing));

    // The Pages reference names nothing.
    let mut doc = sample_doc(1);
    for e in doc.objects.iter_mut() {
        if e.0 == 1 {
            e.1 = PdfObj::Dict(dict(vec![
                (b"Type", PdfObj::Name(b"Catalog".to_vec())),
                (b"Pages", PdfObj::Reference(77)),
            ]));
        }
    }
    assert_eq!(normalize_page_tree(&doc), Err(StructureError::PagesMissing));

    // Kids missing from the page-tree root.
    let mut doc = sample_doc(1);
    for e in doc.objects.iter_mut() {
        if e.0 == 2 {
            e.1 = PdfObj::Dict(dict(vec![
                (b"Type", PdfObj::Name(b"Pages".to_vec())),
                (b"Count", PdfObj::Integer(1)),
            ]));
        }
    }
    assert_eq!(normalize_page_tree(&doc), Err(StructureError::KidsMissing));

    // Count missing from the page-tree root.
    let mut doc = sample_doc(1);
    for e in doc.objects.iter_mut() {
        if e.0 == 2 {
            e.1 = PdfObj::Dict(dict(vec![
                (b"Type", PdfObj::Name(b"Pages".to_vec())),
                (b"Kids", PdfObj::Array(vec![PdfObj::Reference(10)])),
            ]));
        }
    }
    assert_eq!(normalize_page_tree(&doc), Err(StructureError::CountMissing));

    // Count cannot be incremented.
    let mut doc = sample_doc(1);
    for e in doc.objects.iter_mut() {
        if e.0 == 2 {
            e.1 = PdfObj::Dict(dict(vec![
                (b"Type", PdfObj::Name(b"Pages".to_vec())),
                (b"Kids", PdfObj::Array(vec![PdfObj::Reference(10)])),
                (b"Count", PdfObj::Integer(i64::MAX)),
            ]));
        }
    }
    assert_eq!(normalize_page_tree(&doc), Err(StructureError::CountOverflow));
}

#[test]
fn merge_then_normalize() {
    // The nineteen-page merge result has an odd count; normalizing it
    // appends one blank page for an even twenty.
    let dst = sample_doc(9);
    let src = sample_doc(2);
    let points: Vec<u32> = vec![0, 1, 2, 4, 8];
    let merged = merge_documents(&dst, &points, &src).expect("merge must succeed");
    assert_eq!(page_count(&merged) % 2, 1);
    let evened = normalize_page_tree(&merged)
        .expect("merged document is well-shaped")
        .expect("odd count must change the document");
    assert_eq!(page_count(&evened), 20);
}

#[test]
fn page_count_reads_page_list() {
    assert_eq!(page_count(&sample_doc(9)), 9);
    assert_eq!(page_count(&sample_doc(0)), 0);
}
