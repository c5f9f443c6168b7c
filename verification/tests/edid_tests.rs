use omnibook_rs::edid::{
    create_patched_edid, extract_blocks, has_cta_hdr, is_edp_connector, patch_edid, EdidInfo,
    PatchOutcome,
};

/// A 256-byte panel EDID: base block "BOE" 0x1234 with one DisplayID extension that holds a
/// colorimetry block at 150 and an HDR static metadata block at 140.
fn panel_edid() -> Vec<u8> {
    let mut e = vec![0u8; 256];
    e[0..8].copy_from_slice(&[0x00, 0xff, 0xff, 0xff, 0xff, 0xff, 0xff, 0x00]);
    e[8] = 0x09;
    e[9] = 0xe5;
    e[10] = 0x34;
    e[11] = 0x12;
    e[126] = 1;
    e[128] = 0x70;
    e[140..147].copy_from_slice(&[0xe6, 0x06, 0x05, 0x11, 0x22, 0x33, 0x44]);
    e[150..156].copy_from_slice(&[0xe3, 0x05, 0xa1, 0xa2, 0xa3, 0xa4]);
    e
}

fn sum(b: &[u8]) -> u32 {
    b.iter().map(|&x| x as u32).sum()
}

#[test]
fn parse_panel_edid() {
    let info = EdidInfo::parse(&panel_edid()).expect("long enough");
    assert_eq!(info.manufacturer, "BOE");
    assert_eq!(info.product_code, "0x1234");
    assert_eq!(info.size, 256);
    assert_eq!(info.extension_count, 1);
    assert!(info.has_displayid);
    assert!(info.has_hdr);
    assert!(!info.has_cta_hdr);
}

#[test]
fn parse_short_edid_is_none() {
    assert!(EdidInfo::parse(&[0u8; 127]).is_none());
    let info = EdidInfo::parse(&[0u8; 128]).expect("one block");
    assert_eq!(info.manufacturer, "@@@");
    assert!(!info.has_displayid);
}

#[test]
fn blocks_located() {
    assert_eq!(extract_blocks(&panel_edid()), (140, 150, -1));
    assert_eq!(extract_blocks(&[0u8; 200]), (-1, -1, -1));
    let mut e = panel_edid();
    e[200..203].copy_from_slice(&[0x00, 0x00, 0x1a]);
    assert_eq!(extract_blocks(&e).2, 196);
}

#[test]
fn patched_edid_exact_layout() {
    let orig = panel_edid();
    let p = create_patched_edid(&orig).expect("patchable");
    assert_eq!(p.len(), 384);
    assert_eq!(&p[..126], &orig[..126]);
    assert_eq!(p[126], 2);
    assert_eq!(sum(&p[0..128]) % 256, 0);
    assert_eq!(&p[128..256], &orig[128..256]);
    assert_eq!(&p[256..260], &[0x02, 0x03, 0x23, 0x00]);
    assert_eq!(&p[260..266], &[0xe5, 0x05, 0xa1, 0xa2, 0xa3, 0xa4]);
    assert_eq!(&p[266..273], &[0xe6, 0x06, 0x05, 0x11, 0x22, 0x33, 0x44]);
    assert!(p[273..383].iter().all(|&b| b == 0));
    assert_eq!(sum(&p[256..384]) % 256, 0);
}

#[test]
fn patched_edid_then_has_cta_hdr() {
    let p = create_patched_edid(&panel_edid()).unwrap();
    assert!(has_cta_hdr(&p));
    let info = EdidInfo::parse(&p).unwrap();
    assert!(info.has_cta_hdr);
    assert_eq!(info.extension_count, 2);
}

#[test]
fn patch_errors() {
    assert_eq!(
        create_patched_edid(&[0u8; 255]).unwrap_err(),
        "EDID missing DisplayID extension block"
    );
    let mut e = panel_edid();
    e[140] = 0;
    assert_eq!(
        create_patched_edid(&e).unwrap_err(),
        "HDR Static Metadata block not found in DisplayID"
    );
}

#[test]
fn default_colorimetry_without_color_block() {
    let mut e = panel_edid();
    e[150] = 0;
    let p = create_patched_edid(&e).unwrap();
    assert_eq!(&p[260..266], &[0xe5, 0x05, 0x00, 0x00, 0x80, 0x00]);
}

#[test]
fn patch_action_outcomes() {
    let p = match patch_edid(&panel_edid()) {
        PatchOutcome::Patched(p) => p,
        _ => panic!("expected a patched EDID"),
    };
    assert!(matches!(patch_edid(&p), PatchOutcome::AlreadyPatched));
    match patch_edid(&[0u8; 128]) {
        PatchOutcome::Failed(e) => assert_eq!(e, "EDID missing DisplayID extension block"),
        _ => panic!("expected a failure"),
    }
}

#[test]
fn edp_connector_names() {
    assert!(is_edp_connector("card1-eDP-1"));
    assert!(!is_edp_connector("card1-HDMI-A-1"));
    assert!(!is_edp_connector("eDP-1"));
}
