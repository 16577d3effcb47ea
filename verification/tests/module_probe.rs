use selium::module_probe::{
    probe, CODE_SECTION, EXPORT_SECTION, MEMORY_SECTION, WORKER_ENTRY_EXPORT,
};

/// Builds a minimal module header + one section.
fn module(section_id: u8, payload: &[u8]) -> Vec<u8> {
    let mut bytes = b"\0asm\x01\x00\x00\x00".to_vec();
    bytes.push(section_id);
    bytes.push(payload.len() as u8);
    bytes.extend_from_slice(payload);
    bytes
}

/// Builds an export-section payload declaring one export with `name`.
fn export_payload(name: &str) -> Vec<u8> {
    let mut payload = vec![0x01];
    payload.push(name.len() as u8);
    payload.extend_from_slice(name.as_bytes());
    payload.push(0x00);
    payload.push(0x00);
    payload
}

#[test]
fn rejects_non_module_bytes() {
    let probe = probe(b"not a module");
    assert!(!probe.fast_path_capable());
}

#[test]
fn non_shared_module_without_notify_is_not_capable() {
    let module = module(MEMORY_SECTION, &[0x01, 0x00, 0x01]);
    let probe = probe(&module);
    assert!(!probe.shared_memory);
    assert!(!probe.fast_path_capable());
}

#[test]
fn shared_memory_is_detected() {
    let module = module(MEMORY_SECTION, &[0x01, 0x03, 0x01, 0x02]);
    let probe = probe(&module);
    assert!(probe.shared_memory);
    assert!(!probe.fast_path_capable(), "notify opcode still required");
}

#[test]
fn atomic_notify_opcode_is_detected() {
    let module = module(CODE_SECTION, &[0xFE, 0x00, 0x02, 0x00]);
    let probe = probe(&module);
    assert!(probe.atomic_notify);
    assert!(!probe.fast_path_capable(), "shared memory still required");
}

#[test]
fn shared_module_with_notify_is_capable() {
    let mut bytes = b"\0asm\x01\x00\x00\x00".to_vec();
    let memory_payload = [0x01, 0x03, 0x01, 0x02];
    bytes.push(MEMORY_SECTION);
    bytes.push(memory_payload.len() as u8);
    bytes.extend_from_slice(&memory_payload);
    let code_payload = [0xFE, 0x00, 0x02, 0x00];
    bytes.push(CODE_SECTION);
    bytes.push(code_payload.len() as u8);
    bytes.extend_from_slice(&code_payload);

    let probe = probe(&bytes);
    assert!(probe.fast_path_capable());
}

#[test]
fn malformed_memory_section_falls_back_safely() {
    let module = module(MEMORY_SECTION, &[0xFF, 0xFF]);
    let probe = probe(&module);
    assert!(!probe.shared_memory);
}

#[test]
fn worker_entry_export_is_detected() {
    let module = module(EXPORT_SECTION, &export_payload(WORKER_ENTRY_EXPORT));
    let probe = probe(&module);
    assert!(probe.worker_entry);
    assert!(probe.multithreaded());
}

#[test]
fn guest_without_worker_entry_falls_back_to_cooperative() {
    let module = module(EXPORT_SECTION, &export_payload("__selium_guest_poll"));
    let probe = probe(&module);
    assert!(!probe.worker_entry);
    assert!(!probe.multithreaded());
}

#[test]
fn worker_entry_detection_is_exact() {
    let module = module(
        EXPORT_SECTION,
        &export_payload("__selium_guest_worker_extra"),
    );
    let probe = probe(&module);
    assert!(!probe.worker_entry);
}

#[test]
fn malformed_export_section_falls_back_to_cooperative() {
    let module = module(EXPORT_SECTION, &[0x01]);
    let probe = probe(&module);
    assert!(!probe.worker_entry);
    assert!(!probe.multithreaded());
}

// ---------------------------------------------------------------------------
// Further cases.
// ---------------------------------------------------------------------------

#[test]
fn wrong_version_is_rejected() {
    let mut bytes = module(CODE_SECTION, &[0xFE, 0x00]);
    bytes[4] = 0x02;
    let probe = probe(&bytes);
    assert!(!probe.atomic_notify);
}

#[test]
fn multi_byte_section_sizes_are_decoded() {
    let mut payload = vec![0u8; 200];
    payload[150] = 0xFE;
    payload[151] = 0x00;
    let mut bytes = b"\0asm\x01\x00\x00\x00".to_vec();
    bytes.push(CODE_SECTION);
    bytes.extend_from_slice(&[0xC8, 0x01]); // 200 as LEB128
    bytes.extend_from_slice(&payload);
    assert!(probe(&bytes).atomic_notify);
}

#[test]
fn oversized_section_ends_the_scan() {
    let mut bytes = b"\0asm\x01\x00\x00\x00".to_vec();
    bytes.push(CODE_SECTION);
    bytes.push(0x05);
    bytes.extend_from_slice(&[0xFE, 0x00]);
    assert!(!probe(&bytes).atomic_notify);
}

#[test]
fn later_shared_memory_entry_is_found() {
    // Two entries: the first unshared with a max, the second shared.
    let module = module(MEMORY_SECTION, &[0x02, 0x01, 0x01, 0x02, 0x02, 0x01]);
    assert!(probe(&module).shared_memory);
}

#[test]
fn worker_entry_after_other_exports_is_found() {
    let mut payload = vec![0x02];
    payload.push(4);
    payload.extend_from_slice(b"main");
    payload.extend_from_slice(&[0x00, 0x80, 0x01]); // kind, index 128
    payload.push(WORKER_ENTRY_EXPORT.len() as u8);
    payload.extend_from_slice(WORKER_ENTRY_EXPORT.as_bytes());
    payload.extend_from_slice(&[0x00, 0x01]);
    assert!(probe(&module(EXPORT_SECTION, &payload)).worker_entry);
}

#[test]
fn leb_with_six_groups_is_malformed() {
    let module = module(MEMORY_SECTION, &[0x80, 0x80, 0x80, 0x80, 0x80, 0x00]);
    assert!(!probe(&module).shared_memory);
}

#[test]
fn a_cut_off_trailing_section_header_gives_no_signal() {
    let mut module = b"\0asm\x01\x00\x00\x00".to_vec();
    module.extend_from_slice(&[0x05, 0x04, 0x01, 0x03, 0x01, 0x02]);
    module.extend_from_slice(&[0x0A, 0x04, 0xFE, 0x00, 0x02, 0x00]);
    let whole = probe(&module);
    assert!(whole.fast_path_capable());
    module.extend_from_slice(&[0x00, 0x80]);
    let cut = probe(&module);
    assert!(!cut.fast_path_capable());
    assert!(!cut.multithreaded());
}
