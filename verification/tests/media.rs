use std::time::Instant;
use taostorage::encrypt::{decrypt, encrypt};
use taostorage::erasure::ErasureEncoder;

#[test]
fn test_large_file_chunking() {
    println!("\n=== large file chunking ===");
    let total_size = 16 * 1024 * 1024;
    let chunk_size = 1024 * 1024;
    let total_chunks = total_size / chunk_size;

    let t0 = Instant::now();
    let mut chunk_hashes = Vec::new();

    for i in 0..total_chunks {
        let chunk = vec![(i % 256) as u8; chunk_size];

        let encrypted = encrypt(&chunk, &[0x42u8; 32]);
        let encoder = ErasureEncoder::new(6, 2);
        let shards = encoder.encode(&encrypted).unwrap();

        let pairs: Vec<_> = shards.iter().enumerate().map(|(j, s)| (Some(s.clone()), j < 6)).collect();
        let recovered = encoder.decode(&pairs).unwrap();
        let decrypted = decrypt(&recovered, &[0x42u8; 32]).unwrap();
        assert_eq!(decrypted, chunk);

        chunk_hashes.push(shards[0].original_hash);
    }

    let elapsed = t0.elapsed();
    let throughput = total_size as f64 / elapsed.as_secs_f64() / (1024.0 * 1024.0);
    println!("  16 chunks encrypted, coded and checked: {:?}  ({:.1} MB/s)", elapsed, throughput);
    println!("  chunk hashes: {}", chunk_hashes.len());
}

#[test]
fn test_adaptive_ec_for_media() {
    println!("\n=== adaptive erasure coding ===");

    let strategies = [
        ("thumbnail (1KB)", 1_000, 2, 1),
        ("photo (5MB)", 5_000_000, 6, 2),
        ("short video (50MB)", 50_000_000, 10, 4),
        ("long video (1GB)", 1_000_000_000, 20, 8),
    ];

    for (label, size, k, m) in &strategies {
        let overhead = (*m as f64 / *k as f64) * 100.0;
        let tolerance = *m;
        let chunk_count = if *size > 16_000_000 { (*size / (16_000_000)).max(1) } else { 1 };
        println!(
            "  {:<18} EC({}+{})  overhead {:.0}%  tolerates {}  chunks {}",
            label, k, m, overhead, tolerance, chunk_count
        );
    }
}
