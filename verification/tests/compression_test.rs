use mini_lsm_starter::compression::gz::GzCompressionController;
use mini_lsm_starter::compression::lz4::Lz4CompressionController;
use mini_lsm_starter::compression::snappy::SnappyCompressionController;
use mini_lsm_starter::compression::{CompressionController, CompressionOptions};
use std::time::Instant;

#[test]
fn test_task1_snappy_should_work() {
    let uncompressed_data = b"This is some data to be compressed using Snappy.";
    println!("ori size: {}", uncompressed_data.len());

    let compressed_result = SnappyCompressionController::compress(uncompressed_data).unwrap();

    println!("Compressed size: {}", compressed_result.len());

    let decompressed_buffer =
        SnappyCompressionController::de_compress(compressed_result.as_slice()).unwrap();

    assert_eq!(uncompressed_data.to_vec(), decompressed_buffer);

    println!(
        "Decompressed data: {}",
        String::from_utf8_lossy(&decompressed_buffer)
    );
}

#[test]
fn test_task1_lz4_should_work() {
    let uncompressed_data = b"This is some data to be compressed using lz4.";
    println!("ori size: {}", uncompressed_data.len());

    let compressed_result = Lz4CompressionController::compress(uncompressed_data).unwrap();

    println!("Compressed size: {}", compressed_result.len());

    let decompressed_buffer =
        Lz4CompressionController::de_compress(compressed_result.as_slice()).unwrap();

    assert_eq!(uncompressed_data.to_vec(), decompressed_buffer);

    println!(
        "Decompressed data: {}",
        String::from_utf8_lossy(&decompressed_buffer)
    );
}

#[test]
fn test_task1_gz_should_work() {
    let uncompressed_data = b"This is some data to be compressed using gz.";
    println!("ori size: {}", uncompressed_data.len());

    let compressed_result = GzCompressionController::compress(uncompressed_data).unwrap();

    println!("Compressed size: {}", compressed_result.len());

    let decompressed_buffer =
        GzCompressionController::de_compress(compressed_result.as_slice()).unwrap();

    assert_eq!(uncompressed_data.to_vec(), decompressed_buffer);

    println!(
        "Decompressed data: {}",
        String::from_utf8_lossy(&decompressed_buffer)
    );
}

#[test]
fn test_enum_to_u8() {
    let compression = CompressionOptions::Snappy;
    let mut buffer: Vec<u8> = Vec::new();

    buffer.push(compression.into());

    println!("选择的压缩类型: {:?}", compression);
    println!("写入 Vec<u8> 后的内容: {:?}", buffer);

    if let Some(byte_value) = buffer.first() {
        match CompressionOptions::try_from(*byte_value) {
            Ok(decompressed_type) => {
                println!("从 Vec<u8> 读回的类型: {:?}", decompressed_type);
                assert_eq!(compression, decompressed_type);
            }
            Err(e) => {
                println!("解析失败: {}", e);
            }
        }
    }

    let invalid_byte: u8 = 99;
    match CompressionOptions::try_from(invalid_byte) {
        Ok(t) => println!("成功解析无效值: {:?}", t),
        Err(e) => println!("尝试解析无效值 {} 失败: {}", invalid_byte, e),
    }
}

#[test]
fn test_compression_work() {
    let test_data: Vec<u8> = vec![b'1'; 1024];

    let algorithms = [
        (CompressionOptions::NoCompression, "None"),
        (CompressionOptions::Snappy, "Snappy"),
        (CompressionOptions::Lz4, "LZ4"),
        (CompressionOptions::Gz, "Gzip"),
    ];

    for (compression, name) in algorithms {
        let controller = CompressionController::new(compression);

        for _ in 0..10 {
            let _ = controller.compress(&test_data);
        }

        let start = Instant::now();
        let mut total_size = 0;
        for _ in 0..1000 {
            let compressed = controller.compress(&test_data).unwrap();
            total_size += compressed.len();
            let _decompressed = controller.de_compress(&compressed).unwrap();
        }
        let duration = start.elapsed();

        let avg_size = total_size as f64 / 1000.0;
        let compression_ratio = (test_data.len() as f64 / avg_size) as f64;

        println!("{}:", name);
        println!("  时间: {:?} (1000次操作)", duration);
        println!("  平均压缩后大小: {:.2} bytes", avg_size);
        println!("  压缩比: {:.2}x", compression_ratio);
        println!();
    }
}

#[test]
fn compression_option_bytes_roundtrip() {
    let all = [
        CompressionOptions::NoCompression,
        CompressionOptions::Snappy,
        CompressionOptions::Lz4,
        CompressionOptions::Gz,
    ];
    for (i, c) in all.iter().enumerate() {
        let b: u8 = (*c).into();
        assert_eq!(b as usize, i);
        assert_eq!(CompressionOptions::try_from(b).unwrap(), *c);
    }
    assert!(CompressionOptions::try_from(4u8).is_err());
}

#[test]
fn compressed_forms_differ_from_input() {
    let data: Vec<u8> = vec![b'a'; 512];
    for c in [CompressionOptions::Snappy, CompressionOptions::Lz4, CompressionOptions::Gz] {
        let controller = CompressionController::new(c);
        let out = controller.compress(&data).unwrap();
        assert_ne!(out, data);
        assert!(out.len() < data.len());
        assert_eq!(controller.de_compress(&out).unwrap(), data);
    }
    let plain = CompressionController::new(CompressionOptions::NoCompression);
    assert_eq!(plain.compress(&data).unwrap(), data);
}

#[test]
fn corrupt_input_is_an_error() {
    let garbage = vec![0xffu8; 16];
    assert!(SnappyCompressionController::de_compress(&garbage).is_err());
    assert!(GzCompressionController::de_compress(&garbage).is_err());
}
