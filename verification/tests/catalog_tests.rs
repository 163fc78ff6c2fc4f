use starglyph::catalog::{
    find_column_index, find_column_index_optional, header_field_names, parse_string,
    resolve_hyg_columns, row_star_id, CatalogError,
};
use starglyph::star_catalog::{
    catalog_columns, field_value, find_column, header_names, is_gzip_path, parse_optional_string,
    parse_u32_field, parse_u32_optional, CatalogError as CoreCatalogError,
};

fn strings(v: &[&str]) -> Vec<String> {
    v.iter().map(|s| s.to_string()).collect()
}

#[test]
fn simulator_columns_ignore_case_and_try_candidates_in_order() {
    let headers = strings(&["ID", "RA_deg", "dec", "Mag"]);
    assert_eq!(find_column_index_optional(&headers, &["star_id", "id"]), Some(0));
    assert_eq!(find_column_index_optional(&headers, &["ra", "ra_deg"]), Some(1));
    assert_eq!(find_column_index_optional(&headers, &["rarad"]), None);
    assert_eq!(find_column_index(&headers, &["mag", "mag_v"]), Ok(3));
    assert_eq!(
        find_column_index(&headers, &["rarad", "x"]),
        Err(CatalogError::MissingColumn { column: "rarad" })
    );
}

#[test]
fn simulator_header_names_are_trimmed_and_lose_the_bom() {
    let names = header_field_names(&strings(&["\u{feff}id", " ra ", "dec\t"]));
    assert_eq!(names, strings(&["id", "ra", "dec"]));
}

#[test]
fn simulator_column_layout() {
    let cols = resolve_hyg_columns(&strings(&["id", "ra", "dec", "mag", "rarad", "decrad"])).unwrap();
    assert_eq!((cols.id, cols.ra, cols.dec, cols.mag), (0, 1, 2, 3));
    assert_eq!((cols.hip, cols.rarad, cols.decrad), (None, Some(4), Some(5)));
    let cols = resolve_hyg_columns(&strings(&["hip", "ra", "dec", "mag"])).unwrap();
    assert_eq!((cols.id, cols.hip), (0, Some(0)));
    assert_eq!(
        resolve_hyg_columns(&strings(&["id", "dec", "mag"])),
        Err(CatalogError::MissingColumn { column: "ra" })
    );
    assert_eq!(
        resolve_hyg_columns(&strings(&["ra", "dec", "mag"])),
        Err(CatalogError::MissingColumn { column: "id" })
    );
}

#[test]
fn simulator_row_identifiers_fall_back_to_hip() {
    let row = strings(&["  ", "101.2", "7"]);
    assert_eq!(parse_string(&row, 1), "101.2");
    assert_eq!(parse_string(&row, 9), "");
    assert_eq!(row_star_id(&row, 0, Some(2)), "7");
    assert_eq!(row_star_id(&row, 0, None), "");
    assert_eq!(row_star_id(&strings(&["sirius"]), 0, Some(3)), "sirius");
}

#[test]
fn core_header_names_and_exact_lookup() {
    let names = header_names(&strings(&[" ID ", "Proper", "RA"]));
    assert_eq!(names, strings(&["id", "proper", "ra"]));
    assert_eq!(find_column(&names, "ra"), Some(2));
    assert_eq!(find_column(&names, "RA"), None);
}

#[test]
fn core_fields() {
    let rec = strings(&["32263", "  ", " Sirius ", "x1"]);
    assert_eq!(field_value(&rec, 0), Some("32263".to_owned()));
    assert_eq!(field_value(&rec, 1), None);
    assert_eq!(field_value(&rec, 7), None);
    assert_eq!(parse_optional_string(&rec, 2), Some("Sirius".to_owned()));
    assert_eq!(parse_u32_optional(&rec, 0), Some(32263));
    assert_eq!(parse_u32_optional(&rec, 3), None);
    assert_eq!(parse_u32_optional(&strings(&["+12"]), 0), Some(12));
    assert_eq!(parse_u32_optional(&strings(&["4294967296"]), 0), None);
}

#[test]
fn core_u32_field_errors_name_the_cell() {
    let rec = strings(&["5", "", "abc"]);
    assert_eq!(parse_u32_field(&rec, 0, "c.csv", 2, "id").unwrap(), 5);
    match parse_u32_field(&rec, 1, "c.csv", 3, "id") {
        Err(CoreCatalogError::InvalidField { path, row, column, value }) => {
            assert_eq!((path.as_str(), row, column, value.as_str()), ("c.csv", 3, "id", ""));
        }
        other => panic!("unexpected {other:?}"),
    }
    match parse_u32_field(&rec, 2, "c.csv", 4, "id") {
        Err(CoreCatalogError::InvalidField { value, .. }) => assert_eq!(value, "abc"),
        other => panic!("unexpected {other:?}"),
    }
}

#[test]
fn core_column_layout() {
    let names = strings(&["id", "hip", "proper", "ra", "dec", "mag", "con", "rarad", "decrad", "pmrarad", "pmdecrad"]);
    let c = catalog_columns(&names, "hyg.csv").unwrap();
    assert_eq!((c.id, c.ra, c.dec, c.mag), (0, 3, 4, 5));
    assert_eq!((c.hip, c.proper, c.con), (Some(1), Some(2), Some(6)));
    assert_eq!((c.rarad, c.decrad, c.pmrarad, c.pmdecrad), (Some(7), Some(8), Some(9), Some(10)));
    match catalog_columns(&strings(&["id", "ra", "mag"]), "hyg.csv") {
        Err(CoreCatalogError::MissingColumn { path, column }) => {
            assert_eq!((path.as_str(), column), ("hyg.csv", "dec"));
        }
        other => panic!("unexpected {other:?}"),
    }
}

#[test]
fn loads_gzip_catalog_by_extension() {
    assert!(is_gzip_path("data/hyg_v42.csv.gz"));
    assert!(is_gzip_path("data/hyg.GZ"));
    assert!(!is_gzip_path("data/hyg_v42.csv"));
    assert!(!is_gzip_path("gz"));
}
