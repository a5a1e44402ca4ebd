# LoopHunter

LoopHunter finds static routing loops in IPv4 and IPv6 networks. It sends echo
requests to the addresses of a client's networks and listens for *Time Exceeded*
messages: a router that gives up on a probe reports a loop at its destination.
What a scan finds is compared with what the one before found, and reported on the
console and by email.

## Layout

- `src/` is the library, verified with Verus:
  - `text`, `order`: text, and rows of text in ascending order
  - `ip`: addresses and networks as numbers
  - `icmp`: the probes, and how answers are read
  - `targets`: which addresses of a network are probed
  - `sender`: in which order and at which pace probes go out
  - `checker`: what a scan probes, hears and finds
  - `records`, `registry`: clients and their networks, what may be entered, and how
    it is shown
  - `loops`, `groups`, `lines`, `report`: the report of a client's scan
  - `client_scan`: a client's scan, step by step
  - `notifier`: email and configuration
- `app/` is the program: command line, database, sockets and SMTP.
- `tests/` holds tests of the library.

## Configuration

`config.toml` has to be readable by its owner alone.

```toml
[smtp]
host = "smtp.example.com"
port = 587
username = "alerts@example.com"
password = "your_password_here"
from_address = "alerts@example.com"
encryption = "tls" # "none", "tls" (STARTTLS) or "ssl" (implicit TLS)

[scan]
ipv4_delay_ms = 1
ipv6_delay_us = 200
timeout_secs = 1.0
rounds = 3
round_delay_ms = 1000
```

Raw sockets need the `cap_net_raw` capability.
