# lazybind

Starts network services on demand. Each endpoint of the configuration has a listening
socket; its command is started when the first client connects, and inherits that socket
in place of the one that it binds itself.

## Layout

- `src/` is the library, verified with Verus: everything that is decided.
  - `split`, `addr`, `config`: reading the configuration
  - `endpoint`: the states of an endpoint
  - `poll`: which descriptors are polled, and what their events mean
  - `bpf`, `seccomp`: the filter for system calls, and the answers to those it reports
  - `answer`: the steps in which such an answer is given
- `app/` is the program around it: files, sockets, processes.
- `tests/` runs the library.

## State

```mermaid
stateDiagram-v2
    [*] --> Stopped
    Stopped --> NeedSeccompFd: socket
    NeedSeccompFd --> [*]: pidfd, timeout
    NeedSeccompFd --> NeedSeccompNotify: unix socket
    NeedSeccompNotify --> Started: seccomp
    NeedSeccompNotify --> [*]: pidfd, timeout
    Started --> [*]: pidfd
```

The timeout is 30 seconds in each of the two states. A command that takes longer is
killed, and its endpoint is stopped.

## Config

```
# comment lines start with #
8000 /usr/bin/some_command some_args
# continued commands start with whitespace
     --some_more_args

# empty lines also continue commands
     --some_even_more_args
```

An address is a port, which stands for that port of every address of the host, or an
IPv4 address with a port, such as `127.0.0.1:8000`.
