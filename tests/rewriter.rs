use bytes::{Bytes, BytesMut};
use insecure_proxy::rewriter::{url_rewriter, HttpsUrlRewriter, State};

#[test]
fn state_n_consume_h() {
    let mut rewriter = HttpsUrlRewriter {
        output_buffer: BytesMut::with_capacity(1),
        buffer: BytesMut::with_capacity(5),
        state: State::NotInScheme,
    };
    rewriter.consume(b'h');
    assert_eq!(&rewriter.buffer[..], b"h");
    assert_eq!(&rewriter.output_buffer[..], b"");
    assert_eq!(rewriter.state, State::HaveH);
}

#[test]
fn state_h_consume_t() {
    let mut rewriter = HttpsUrlRewriter {
        output_buffer: BytesMut::with_capacity(1),
        buffer: BytesMut::from(&b"h"[..]),
        state: State::HaveH,
    };
    rewriter.consume(b't');
    assert_eq!(&rewriter.buffer[..], b"ht");
    assert_eq!(&rewriter.output_buffer[..], b"");
    assert_eq!(rewriter.state, State::HaveHT);
}

#[test]
fn state_ht_consume_t() {
    let mut rewriter = HttpsUrlRewriter {
        output_buffer: BytesMut::with_capacity(1),
        buffer: BytesMut::from(&b"ht"[..]),
        state: State::HaveHT,
    };
    rewriter.consume(b't');
    assert_eq!(&rewriter.buffer[..], b"htt");
    assert_eq!(&rewriter.output_buffer[..], b"");
    assert_eq!(rewriter.state, State::HaveHTT);
}

#[test]
fn state_htt_consume_p() {
    let mut rewriter = HttpsUrlRewriter {
        output_buffer: BytesMut::with_capacity(1),
        buffer: BytesMut::from(&b"htt"[..]),
        state: State::HaveHTT,
    };
    rewriter.consume(b'p');
    assert_eq!(&rewriter.buffer[..], b"http");
    assert_eq!(&rewriter.output_buffer[..], b"");
    assert_eq!(rewriter.state, State::HaveHTTP);
}

#[test]
fn state_http_consume_s() {
    let mut rewriter = HttpsUrlRewriter {
        output_buffer: BytesMut::with_capacity(1),
        buffer: BytesMut::from(&b"http"[..]),
        state: State::HaveHTTP,
    };
    rewriter.consume(b's');
    assert_eq!(&rewriter.buffer[..], b"https");
    assert_eq!(&rewriter.output_buffer[..], b"");
    assert_eq!(rewriter.state, State::HaveHTTPS);
}

#[test]
fn state_https_consume_colon() {
    let mut rewriter = HttpsUrlRewriter {
        output_buffer: BytesMut::with_capacity(1),
        buffer: BytesMut::from(&b"https"[..]),
        state: State::HaveHTTPS,
    };
    rewriter.consume(b':');
    assert_eq!(&rewriter.buffer[..], b"https:");
    assert_eq!(&rewriter.output_buffer[..], b"");
    assert_eq!(rewriter.state, State::HaveHTTPSC);
}

#[test]
fn state_httpsc_consume_slash() {
    let mut rewriter = HttpsUrlRewriter {
        output_buffer: BytesMut::with_capacity(1),
        buffer: BytesMut::from(&b"https:"[..]),
        state: State::HaveHTTPSC,
    };
    rewriter.consume(b'/');
    assert_eq!(&rewriter.buffer[..], b"https:/");
    assert_eq!(&rewriter.output_buffer[..], b"");
    assert_eq!(rewriter.state, State::HaveHTTPSCS);
}

#[test]
fn state_httpscs_consume_slash() {
    let mut rewriter = HttpsUrlRewriter {
        output_buffer: BytesMut::with_capacity(1),
        buffer: BytesMut::from(&b"https:/"[..]),
        state: State::HaveHTTPSCS,
    };
    rewriter.consume(b'/');
    assert_eq!(&rewriter.buffer[..], b"");
    assert_eq!(&rewriter.output_buffer[..], b"http://");
    assert_eq!(rewriter.state, State::NotInScheme);
}

#[test]
fn state_h_consume_h() {
    let mut rewriter = HttpsUrlRewriter {
        output_buffer: BytesMut::with_capacity(1),
        buffer: BytesMut::from(&b"h"[..]),
        state: State::NotInScheme,
    };
    rewriter.consume(b'h');
    assert_eq!(&rewriter.buffer[..], b"h");
    assert_eq!(&rewriter.output_buffer[..], b"h");
    assert_eq!(rewriter.state, State::HaveH);
}

#[test]
fn state_ht_consume_h() {
    let mut rewriter = HttpsUrlRewriter {
        output_buffer: BytesMut::with_capacity(1),
        buffer: BytesMut::from(&b"ht"[..]),
        state: State::HaveHT,
    };
    rewriter.consume(b'h');
    assert_eq!(&rewriter.buffer[..], b"h");
    assert_eq!(&rewriter.output_buffer[..], b"ht");
    assert_eq!(rewriter.state, State::HaveH);
}

#[test]
fn state_htt_consume_h() {
    let mut rewriter = HttpsUrlRewriter {
        output_buffer: BytesMut::with_capacity(1),
        buffer: BytesMut::from(&b"htt"[..]),
        state: State::HaveHTT,
    };
    rewriter.consume(b'h');
    assert_eq!(&rewriter.buffer[..], b"h");
    assert_eq!(&rewriter.output_buffer[..], b"htt");
    assert_eq!(rewriter.state, State::HaveH);
}

#[test]
fn state_http_consume_h() {
    let mut rewriter = HttpsUrlRewriter {
        output_buffer: BytesMut::with_capacity(1),
        buffer: BytesMut::from(&b"http"[..]),
        state: State::HaveHTTP,
    };
    rewriter.consume(b'h');
    assert_eq!(&rewriter.buffer[..], b"h");
    assert_eq!(&rewriter.output_buffer[..], b"http");
    assert_eq!(rewriter.state, State::HaveH);
}

#[test]
fn state_https_consume_h() {
    let mut rewriter = HttpsUrlRewriter {
        output_buffer: BytesMut::with_capacity(1),
        buffer: BytesMut::from(&b"https"[..]),
        state: State::HaveHTTPS,
    };
    rewriter.consume(b'h');
    assert_eq!(&rewriter.buffer[..], b"h");
    assert_eq!(&rewriter.output_buffer[..], b"https");
    assert_eq!(rewriter.state, State::HaveH);
}

#[test]
fn state_httpsc_consume_h() {
    let mut rewriter = HttpsUrlRewriter {
        output_buffer: BytesMut::with_capacity(1),
        buffer: BytesMut::from(&b"https:"[..]),
        state: State::HaveHTTPSC,
    };
    rewriter.consume(b'h');
    assert_eq!(&rewriter.buffer[..], b"h");
    assert_eq!(&rewriter.output_buffer[..], b"https:");
    assert_eq!(rewriter.state, State::HaveH);
}

#[test]
fn state_httpscs_consume_h() {
    let mut rewriter = HttpsUrlRewriter {
        output_buffer: BytesMut::with_capacity(1),
        buffer: BytesMut::from(&b"https:/"[..]),
        state: State::HaveHTTPSCS,
    };
    rewriter.consume(b'h');
    assert_eq!(&rewriter.buffer[..], b"h");
    assert_eq!(&rewriter.output_buffer[..], b"https:/");
    assert_eq!(rewriter.state, State::HaveH);
}

#[test]
fn blank_consume_some_with_https_url() {
    let mut rewriter = HttpsUrlRewriter {
        output_buffer: BytesMut::with_capacity(200),
        buffer: BytesMut::with_capacity(16),
        state: State::NotInScheme,
    };

    rewriter.consume_str(&mut Bytes::from_static(b"hello https://google.com"));

    assert_eq!(&rewriter.output_buffer[..], b"hello http://google.com");
    assert_eq!(&rewriter.buffer[..], b"");
    assert_eq!(rewriter.state, State::NotInScheme);
}

#[test]
fn from_halfway_through_consume_remaining_https() {
    let mut rewriter = HttpsUrlRewriter {
        output_buffer: BytesMut::with_capacity(200),
        buffer: BytesMut::from(&b"ht"[..]),
        state: State::HaveHT,
    };

    rewriter.consume_str(&mut Bytes::from_static(b"tps://google.com hello"));

    assert_eq!(&rewriter.output_buffer[..], b"http://google.com hello");
    assert_eq!(&rewriter.buffer[..], b"");
    assert_eq!(rewriter.state, State::NotInScheme);
}

#[test]
fn consume_a_few_chunks() {
    let mut rewriter = HttpsUrlRewriter {
        output_buffer: BytesMut::with_capacity(200),
        buffer: BytesMut::with_capacity(16),
        state: State::NotInScheme,
    };

    rewriter.consume_str(&mut Bytes::from_static(b"hello https://google.com"));
    rewriter.consume_str(&mut Bytes::from_static(b"/goog http://website https:"));
    rewriter.consume_str(&mut Bytes::from_static(b"//example.com"));

    assert_eq!(
        &rewriter.output_buffer[..],
        b"hello http://google.com/goog http://website http://example.com"
    );
}

#[test]
fn returns_output() {
    let mut rewriter = HttpsUrlRewriter {
        output_buffer: BytesMut::from(&b"hello"[..]),
        buffer: BytesMut::with_capacity(1),
        state: State::NotInScheme,
    };

    let result = rewriter.move_output();

    assert_eq!(&result[..], b"hello");
    assert_eq!(&rewriter.output_buffer[..], b"");
}

#[test]
fn consume_str_empties_its_argument() {
    let mut rewriter = url_rewriter();
    let mut chunk = Bytes::from_static(b"abc");
    rewriter.consume_str(&mut chunk);
    assert!(chunk.is_empty());
    assert_eq!(&rewriter.output_buffer[..], b"abc");
}

#[test]
fn move_output_keeps_pending_match() {
    let mut rewriter = url_rewriter();
    rewriter.consume_str(&mut Bytes::from_static(b"see https:/"));
    let drained = rewriter.move_output();
    assert_eq!(&drained[..], b"see ");
    assert_eq!(&rewriter.buffer[..], b"https:/");
    assert_eq!(rewriter.state, State::HaveHTTPSCS);
    rewriter.consume_str(&mut Bytes::from_static(b"/x"));
    assert_eq!(&rewriter.move_output()[..], b"http://x");
}

#[test]
fn finish_flushes_unfinished_match() {
    let mut rewriter = url_rewriter();
    rewriter.consume_str(&mut Bytes::from_static(b"ends with http"));
    assert_eq!(&rewriter.output_buffer[..], b"ends with ");
    rewriter.finish();
    assert_eq!(&rewriter.move_output()[..], b"ends with http");
    assert_eq!(&rewriter.buffer[..], b"");
    assert_eq!(rewriter.state, State::NotInScheme);
}

fn rewrite_in_chunks(input: &[u8], cuts: &[usize]) -> Vec<u8> {
    let mut rewriter = url_rewriter();
    let mut drained = Vec::new();
    let mut start = 0;
    for &cut in cuts.iter().chain(std::iter::once(&input.len())) {
        rewriter.consume_str(&mut Bytes::copy_from_slice(&input[start..cut]));
        drained.extend_from_slice(&rewriter.move_output());
        start = cut;
    }
    drained
}

#[test]
fn chunk_boundaries_do_not_change_output() {
    let input = b"a https://x hhttps://y http://z https:/ https://";
    let whole = rewrite_in_chunks(input, &[]);
    assert_eq!(&whole[..], b"a http://x hhttp://y http://z https:/ http://");
    for cut in 0..=input.len() {
        assert_eq!(rewrite_in_chunks(input, &[cut]), whole);
    }
    let every_byte: Vec<usize> = (1..input.len()).collect();
    assert_eq!(rewrite_in_chunks(input, &every_byte), whole);
}

#[test]
fn h_restarts_a_match() {
    let mut rewriter = HttpsUrlRewriter {
        output_buffer: BytesMut::new(),
        buffer: BytesMut::from(&b"h"[..]),
        state: State::HaveH,
    };
    rewriter.consume(b'h');
    assert_eq!(&rewriter.buffer[..], b"h");
    assert_eq!(&rewriter.output_buffer[..], b"h");
    assert_eq!(rewriter.state, State::HaveH);
}

#[test]
fn other_byte_breaks_a_match() {
    let mut rewriter = HttpsUrlRewriter {
        output_buffer: BytesMut::from(&b"x"[..]),
        buffer: BytesMut::from(&b"htt"[..]),
        state: State::HaveHTT,
    };
    rewriter.consume(b'x');
    assert_eq!(&rewriter.buffer[..], b"");
    assert_eq!(&rewriter.output_buffer[..], b"xhttx");
    assert_eq!(rewriter.state, State::NotInScheme);
}
